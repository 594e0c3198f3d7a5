//! What a session's log amounts to: its summary, the messages that a model is
//! sent, and the transcript.
use crate::error::{fail, fail_about, fail_with, Error};
use crate::ids::hyphenated;
use crate::llm::protocol::{
    call_views, calls_json, copy_calls, encode_calls, message_views, plain_message, CallView,
    ChatMessage, MessageView, ToolCall,
};
use crate::paths::{is_same_path, same_path};
use crate::seqs::{lemma_slot_is, slot_of};
use crate::session::coherence::{coherent, every_event_keeps_coherence};
use crate::session::compaction::KEEP_RECENT_TURNS;
use crate::session::event::{EventEnvelope, SessionEvent, SCHEMA_VERSION};
use crate::session::model::{
    copy_skills, item_views, skill_views, ActiveSkillRecord, AssistantRecord, CompactionPlan, CompactionRecord,
    ItemView, ModelContext, SessionStatus, SessionSummary, SessionTree, SkillView, SummaryView,
    ToolCallRecord, ToolResultRecord, Transcript, TranscriptItem, TranscriptKind, TreeView, TurnId,
    UserMessageRecord,
};
use crate::session::tree::{active_path_of, rooted, seedling, tree_of};
use crate::text::{
    blank, copy_list, decimal, decimal_of, is_blank, lemma_texts_push, maybe, same, texts,
};
use vstd::prelude::*;

verus! {

/// A message with the place of its event in the log.
#[derive(Debug)]
pub struct StoredMessage {
    pub seq: u64,
    pub message: ChatMessage,
}

/// The view of a stored message.
#[verifier::ext_equal]
pub struct StoredView {
    pub seq: u64,
    pub message: MessageView,
}

impl View for StoredMessage {
    type V = StoredView;

    open spec fn view(&self) -> StoredView {
        StoredView { seq: self.seq, message: self.message@ }
    }
}

/// The views of a list of stored messages.
pub open spec fn stored_views(messages: Seq<StoredMessage>) -> Seq<StoredView> {
    messages.map_values(|m: StoredMessage| m@)
}

/// The turn that is running: what it holds so far, the tool calls that the
/// model has asked for and that have no result yet, and those of them that
/// have begun.
#[derive(Debug)]
pub struct ActiveTurn {
    pub id: TurnId,
    pub started_seq: u64,
    pub input: String,
    pub messages: Vec<StoredMessage>,
    pub unresolved: Vec<String>,
    pub started: Vec<String>,
}

/// The view of a running turn.
#[verifier::ext_equal]
pub struct ActiveView {
    pub id: TurnId,
    pub started_seq: u64,
    pub input: Seq<char>,
    pub messages: Seq<StoredView>,
    pub unresolved: Set<Seq<char>>,
    pub started: Set<Seq<char>>,
}

impl View for ActiveTurn {
    type V = ActiveView;

    open spec fn view(&self) -> ActiveView {
        ActiveView {
            id: self.id,
            started_seq: self.started_seq,
            input: self.input@,
            messages: stored_views(self.messages@),
            unresolved: texts(self.unresolved@).to_set(),
            started: texts(self.started@).to_set(),
        }
    }
}

/// A turn that ended well.
#[derive(Debug)]
pub struct CompletedTurn {
    pub id: TurnId,
    pub started_seq: u64,
    pub completed_seq: u64,
    pub messages: Vec<StoredMessage>,
}

/// The view of a completed turn.
#[verifier::ext_equal]
pub struct TurnView {
    pub id: TurnId,
    pub started_seq: u64,
    pub completed_seq: u64,
    pub messages: Seq<StoredView>,
}

impl View for CompletedTurn {
    type V = TurnView;

    open spec fn view(&self) -> TurnView {
        TurnView {
            id: self.id,
            started_seq: self.started_seq,
            completed_seq: self.completed_seq,
            messages: stored_views(self.messages@),
        }
    }
}

/// The views of a list of completed turns.
pub open spec fn turn_views(turns: Seq<CompletedTurn>) -> Seq<TurnView> {
    turns.map_values(|t: CompletedTurn| t@)
}

/// What a log amounts to.
#[derive(Debug)]
pub struct Projection {
    pub(crate) meta: SessionSummary,
    pub(crate) committed: Vec<StoredMessage>,
    pub(crate) completed: Vec<CompletedTurn>,
    pub(crate) active: Option<ActiveTurn>,
    pub(crate) transcript: Transcript,
    pub(crate) compaction_summary: Option<String>,
    pub(crate) retry_input: Option<String>,
    pub(crate) tree: SessionTree,
}

/// The view of a projection.
#[verifier::ext_equal]
pub struct ProjectionView {
    pub meta: SummaryView,
    pub committed: Seq<StoredView>,
    pub completed: Seq<TurnView>,
    pub active: Option<ActiveView>,
    pub transcript: Seq<ItemView>,
    pub compaction_summary: Option<Seq<char>>,
    pub retry_input: Option<Seq<char>>,
    pub tree: TreeView,
}

impl View for Projection {
    type V = ProjectionView;

    closed spec fn view(&self) -> ProjectionView {
        ProjectionView {
            meta: self.meta@,
            committed: stored_views(self.committed@),
            completed: turn_views(self.completed@),
            active: match self.active {
                Some(turn) => Some(turn@),
                None => None,
            },
            transcript: self.transcript@,
            compaction_summary: maybe(self.compaction_summary),
            retry_input: maybe(self.retry_input),
            tree: self.tree@,
        }
    }
}

// ---------------------------------------------------------------------------
// What each event does.
// ---------------------------------------------------------------------------

/// A Skill put into its place in the list that is sorted by `order`: behind
/// all that do not come after it.
pub open spec fn placed(skills: Seq<SkillView>, new: SkillView) -> Seq<SkillView>
    decreases skills.len(),
{
    if skills.len() > 0 && skills.last().order > new.order {
        placed(skills.drop_last(), new).push(skills.last())
    } else {
        skills.push(new)
    }
}

/// The names of the Skills.
pub open spec fn skill_names(skills: Seq<SkillView>) -> Seq<Seq<char>> {
    skills.map_values(|s: SkillView| s.name)
}

/// The identifiers of the calls.
pub open spec fn call_ids(calls: Seq<CallView>) -> Seq<Seq<char>> {
    calls.map_values(|c: CallView| c.id)
}

/// The identifiers of all calls that the messages ask for.
pub open spec fn asked_ids(messages: Seq<StoredView>) -> Seq<Seq<char>>
    decreases messages.len(),
{
    if messages.len() == 0 {
        Seq::empty()
    } else {
        asked_ids(messages.drop_last()) + match messages.last().message.tool_calls {
            Some(calls) => call_ids(calls),
            None => Seq::empty(),
        }
    }
}

/// What is wrong with a group of calls, judged in order: a blank identifier,
/// or one that came before, in the group or among those that are `known`.
pub open spec fn call_fault(known: Seq<Seq<char>>, calls: Seq<CallView>) -> Option<Seq<char>>
    decreases calls.len(),
{
    if calls.len() == 0 {
        None
    } else {
        match call_fault(known, calls.drop_last()) {
            Some(m) => Some(m),
            None => if blank(calls.last().id) {
                Some("assistant tool call is missing ID"@)
            } else if (known + call_ids(calls.drop_last())).contains(calls.last().id) {
                Some("duplicate tool call ID "@ + calls.last().id)
            } else {
                None
            },
        }
    }
}

/// A transcript item.
pub open spec fn item(
    id: u128,
    kind: TranscriptKind,
    content: Seq<char>,
    turn_id: Option<TurnId>,
    interrupted: bool,
) -> ItemView {
    ItemView { id, kind, content, turn_id, tool_call_id: None, interrupted }
}

/// The last item of a tool call, or -1.
pub open spec fn last_item(items: Seq<ItemView>, call_id: Seq<char>) -> int
    decreases items.len(),
{
    if items.len() == 0 {
        -1
    } else if items.last().tool_call_id == Some(call_id) {
        items.len() - 1
    } else {
        last_item(items.drop_last(), call_id)
    }
}

/// Why an event cannot belong to the running turn: what `turn_of` would be.
pub open spec fn turn_fault(
    s: ProjectionView,
    e: EventEnvelope,
    none: Seq<char>,
    other: Seq<char>,
) -> Option<Seq<char>> {
    match (e.turn_id, s.active) {
        (None, _) => Some("turn event is missing turn_id"@),
        (_, None) => Some(none),
        (Some(id), Some(turn)) => if turn.id != id {
            Some(other)
        } else {
            None
        },
    }
}

/// The session with a running turn taken out of it, which may be tried again.
pub open spec fn turn_dropped(s: ProjectionView, status: SessionStatus) -> ProjectionView {
    ProjectionView {
        meta: SummaryView { status, ..s.meta },
        active: None,
        retry_input: Some(s.active->0.input),
        ..s
    }
}

/// The session with one more transcript item.
pub open spec fn noted(s: ProjectionView, i: ItemView) -> ProjectionView {
    ProjectionView { transcript: s.transcript.push(i), ..s }
}

/// Where the completed turns hold a boundary.
pub open spec fn boundaries(turns: Seq<TurnView>) -> Seq<(TurnId, u64)> {
    turns.map_values(|t: TurnView| (t.id, t.completed_seq))
}

/// The messages after a place in the log.
pub open spec fn messages_after(messages: Seq<StoredView>, seq: u64) -> Seq<StoredView> {
    messages.filter(|m: StoredView| m.seq > seq)
}

/// The turns that were completed after a place in the log.
pub open spec fn turns_after(turns: Seq<TurnView>, seq: u64) -> Seq<TurnView> {
    turns.filter(|t: TurnView| t.completed_seq > seq)
}

/// A turn begins with the user's message.
pub open spec fn step_turn_started(
    s: ProjectionView,
    e: EventEnvelope,
    message_id: u128,
    content: Seq<char>,
) -> Result<ProjectionView, Seq<char>> {
    if s.active is Some {
        Err("cannot start a second active turn"@)
    } else {
        match e.turn_id {
            None => Err("turn event is missing turn_id"@),
            Some(id) => Ok(
                ProjectionView {
                    meta: SummaryView { status: SessionStatus::Running, ..s.meta },
                    active: Some(
                        ActiveView {
                            id,
                            started_seq: e.seq,
                            input: content,
                            messages: seq![
                                StoredView {
                                    seq: e.seq,
                                    message: plain_message("user"@, content),
                                },
                            ],
                            unresolved: Set::empty(),
                            started: Set::empty(),
                        },
                    ),
                    ..noted(s, item(message_id, TranscriptKind::User, content, Some(id), false))
                },
            ),
        }
    }
}

/// The message of a model's answer.
pub open spec fn assistant_message(
    content: Seq<char>,
    reasoning: Option<Seq<char>>,
    calls: Seq<CallView>,
) -> MessageView {
    MessageView {
        role: "assistant"@,
        content,
        reasoning_content: reasoning,
        tool_call_id: None,
        tool_calls: if calls.len() > 0 {
            Some(calls)
        } else {
            None
        },
    }
}

/// The model answers; its calls wait for their results. None of them may have
/// the identifier of another call of the turn.
pub open spec fn step_assistant(
    s: ProjectionView,
    e: EventEnvelope,
    message_id: u128,
    content: Seq<char>,
    reasoning: Option<Seq<char>>,
    calls: Seq<CallView>,
) -> Result<ProjectionView, Seq<char>> {
    match turn_fault(
        s,
        e,
        "session has no active turn"@,
        "event turn ID does not match active turn"@,
    ) {
        Some(m) => Err(m),
        None => {
            let turn = s.active->0;
            if turn.unresolved != Set::<Seq<char>>::empty() {
                Err("assistant response arrived before prior tool group completed"@)
            } else if call_fault(asked_ids(turn.messages), calls) is Some {
                Err(call_fault(asked_ids(turn.messages), calls)->0)
            } else {
                Ok(
                    ProjectionView {
                        active: Some(
                            ActiveView {
                                messages: turn.messages.push(
                                    StoredView {
                                        seq: e.seq,
                                        message: assistant_message(content, reasoning, calls),
                                    },
                                ),
                                unresolved: call_ids(calls).to_set(),
                                ..turn
                            },
                        ),
                        transcript: if content.len() > 0 {
                            s.transcript.push(
                                item(message_id, TranscriptKind::Agent, content, e.turn_id, false),
                            )
                        } else {
                            s.transcript
                        },
                        ..s
                    },
                )
            }
        },
    }
}

/// A call that the model asked for begins.
pub open spec fn step_tool_started(
    s: ProjectionView,
    e: EventEnvelope,
    call_id: Seq<char>,
    name: Seq<char>,
    arguments: Seq<char>,
) -> Result<ProjectionView, Seq<char>> {
    match turn_fault(
        s,
        e,
        "session has no active turn"@,
        "event turn ID does not match active turn"@,
    ) {
        Some(m) => Err(m),
        None => {
            let turn = s.active->0;
            if !turn.unresolved.contains(call_id) {
                Err("tool call "@ + call_id + " was not declared by assistant"@)
            } else if turn.started.contains(call_id) {
                Err("tool call "@ + call_id + " started twice"@)
            } else {
                Ok(
                    ProjectionView {
                        active: Some(ActiveView { started: turn.started.insert(call_id), ..turn }),
                        transcript: s.transcript.push(
                            ItemView {
                                id: e.event_id,
                                kind: TranscriptKind::Tool,
                                content: name + " "@ + arguments,
                                turn_id: e.turn_id,
                                tool_call_id: Some(call_id),
                                interrupted: false,
                            },
                        ),
                        ..s
                    },
                )
            }
        },
    }
}

/// The message of a tool's result.
pub open spec fn tool_message(call_id: Seq<char>, result: Seq<char>) -> MessageView {
    MessageView {
        role: "tool"@,
        content: result,
        reasoning_content: None,
        tool_call_id: Some(call_id),
        tool_calls: None,
    }
}

/// What a finished call shows in the transcript.
pub open spec fn result_line(name: Seq<char>, success: bool, result: Seq<char>) -> Seq<char> {
    name + (if success {
        " completed: "@
    } else {
        " failed: "@
    }) + result
}

/// The transcript with the last item of a call saying how it ended.
pub open spec fn items_finished(
    items: Seq<ItemView>,
    call_id: Seq<char>,
    line: Seq<char>,
) -> Seq<ItemView> {
    let k = last_item(items, call_id);
    if k >= 0 {
        items.update(k, ItemView { content: line, ..items[k] })
    } else {
        items
    }
}

/// A call that had begun ends, and waits no more.
pub open spec fn step_tool_finished(
    s: ProjectionView,
    e: EventEnvelope,
    call_id: Seq<char>,
    name: Seq<char>,
    result: Seq<char>,
    success: bool,
) -> Result<ProjectionView, Seq<char>> {
    match turn_fault(
        s,
        e,
        "session has no active turn"@,
        "event turn ID does not match active turn"@,
    ) {
        Some(m) => Err(m),
        None => {
            let turn = s.active->0;
            if !turn.started.contains(call_id) {
                Err("tool call "@ + call_id + " finished before it started"@)
            } else if !turn.unresolved.contains(call_id) {
                Err("tool call "@ + call_id + " has no unresolved assistant call"@)
            } else {
                Ok(
                    ProjectionView {
                        active: Some(
                            ActiveView {
                                messages: turn.messages.push(
                                    StoredView { seq: e.seq, message: tool_message(call_id, result) },
                                ),
                                unresolved: turn.unresolved.remove(call_id),
                                started: turn.started.remove(call_id),
                                ..turn
                            },
                        ),
                        transcript: items_finished(
                            s.transcript,
                            call_id,
                            result_line(name, success, result),
                        ),
                        ..s
                    },
                )
            }
        },
    }
}

/// The running turn ends well, and its messages become part of the context.
pub open spec fn step_turn_completed(s: ProjectionView, e: EventEnvelope) -> Result<
    ProjectionView,
    Seq<char>,
> {
    match turn_fault(
        s,
        e,
        "no active turn to complete"@,
        "completed turn ID does not match active turn"@,
    ) {
        Some(m) => Err(m),
        None => {
            let turn = s.active->0;
            if turn.unresolved != Set::<Seq<char>>::empty() {
                Err("cannot complete turn with unresolved tool calls"@)
            } else {
                Ok(
                    ProjectionView {
                        meta: SummaryView {
                            status: SessionStatus::Idle,
                            completed_turns: if s.meta.completed_turns < usize::MAX {
                                (s.meta.completed_turns + 1) as usize
                            } else {
                                usize::MAX
                            },
                            ..s.meta
                        },
                        committed: s.committed + turn.messages,
                        completed: s.completed.push(
                            TurnView {
                                id: turn.id,
                                started_seq: turn.started_seq,
                                completed_seq: e.seq,
                                messages: turn.messages,
                            },
                        ),
                        active: None,
                        retry_input: None,
                        ..s
                    },
                )
            }
        },
    }
}

/// The running turn ends badly: it leaves the context as it was before the
/// turn, and the transcript says what happened.
pub open spec fn step_turn_ended(
    s: ProjectionView,
    e: EventEnvelope,
    status: SessionStatus,
    items: Seq<ItemView>,
) -> Result<ProjectionView, Seq<char>> {
    match turn_fault(
        s,
        e,
        "session has no active turn"@,
        "terminal turn ID does not match active turn"@,
    ) {
        Some(m) => Err(m),
        None => Ok(
            ProjectionView { transcript: s.transcript + items, ..turn_dropped(s, status) },
        ),
    }
}

/// The items that the end of a turn leaves: what the model had said so far,
/// where that is kept, and how the turn ended.
pub open spec fn closing_items(
    e: EventEnvelope,
    partial: Option<Seq<char>>,
    kind: TranscriptKind,
    content: Seq<char>,
) -> Seq<ItemView> {
    let said = item(e.event_id, kind, content, e.turn_id, true);
    match partial {
        Some(text) => seq![item(e.event_id, TranscriptKind::Agent, text, e.turn_id, true), said],
        None => seq![said],
    }
}

/// A new context begins; the transcript stays.
pub open spec fn step_reset(s: ProjectionView, e: EventEnvelope, new_epoch: u64) -> Result<
    ProjectionView,
    Seq<char>,
> {
    if s.active is Some {
        Err("cannot reset context with active turn"@)
    } else if new_epoch != s.meta.context_epoch + 1 {
        Err("context epoch must increment by one"@)
    } else {
        Ok(
            ProjectionView {
                meta: SummaryView {
                    context_epoch: new_epoch,
                    compaction_through_seq: None,
                    ..s.meta
                },
                committed: Seq::empty(),
                completed: Seq::empty(),
                compaction_summary: None,
                ..noted(s, item(e.event_id, TranscriptKind::System, "Context reset."@, None, false))
            },
        )
    }
}

/// A summary takes the place of all turns up to a boundary.
pub open spec fn step_compacted(
    s: ProjectionView,
    e: EventEnvelope,
    summary: Seq<char>,
    through_seq: u64,
    through: TurnId,
    keep_from: Option<TurnId>,
) -> Result<ProjectionView, Seq<char>> {
    let cutoff = slot_of(boundaries(s.completed), (through, through_seq));
    if s.active is Some {
        Err("cannot compact context with active turn"@)
    } else if blank(summary) {
        Err("compaction summary cannot be empty"@)
    } else if cutoff == s.completed.len() {
        Err("compaction cutoff is not a completed turn boundary"@)
    } else if keep_from != next_turn(s.completed, cutoff) {
        Err("compaction keep_from turn does not follow cutoff"@)
    } else {
        Ok(
            ProjectionView {
                meta: SummaryView { compaction_through_seq: Some(through_seq), ..s.meta },
                committed: messages_after(s.committed, through_seq),
                completed: turns_after(s.completed, through_seq),
                compaction_summary: Some(summary),
                ..noted(
                    s,
                    item(e.event_id, TranscriptKind::System, "Context compacted."@, None, false),
                )
            },
        )
    }
}

/// The turn after the `k`-th.
pub open spec fn next_turn(turns: Seq<TurnView>, k: int) -> Option<TurnId> {
    if k + 1 < turns.len() {
        Some(turns[k + 1].id)
    } else {
        None
    }
}

/// The words of another branch become part of the context.
pub open spec fn step_branch_summary(s: ProjectionView, e: EventEnvelope, summary: Seq<char>) -> Result<
    ProjectionView,
    Seq<char>,
> {
    if s.active is Some {
        Err("cannot add a branch summary during an active turn"@)
    } else if blank(summary) {
        Err("branch summary cannot be empty"@)
    } else {
        Ok(
            ProjectionView {
                committed: s.committed.push(
                    StoredView {
                        seq: e.seq,
                        message: plain_message(
                            "system"@,
                            "Summary from another branch:\n"@ + summary,
                        ),
                    },
                ),
                ..noted(
                    s,
                    item(
                        e.event_id,
                        TranscriptKind::System,
                        "Branch summary added."@,
                        None,
                        false,
                    ),
                )
            },
        )
    }
}

/// A Skill is switched on.
pub open spec fn step_skill_on(s: ProjectionView, new: SkillView) -> Result<
    ProjectionView,
    Seq<char>,
> {
    if s.active is Some {
        Err("cannot activate a Skill during an active turn"@)
    } else if blank(new.name) {
        Err("Skill name cannot be empty"@)
    } else if blank(new.digest) {
        Err("Skill digest cannot be empty"@)
    } else if skill_names(s.meta.active_skills).contains(new.name) {
        Err("Skill "@ + new.name + " is already active"@)
    } else {
        Ok(
            ProjectionView {
                meta: SummaryView {
                    active_skills: placed(s.meta.active_skills, new),
                    ..s.meta
                },
                ..s
            },
        )
    }
}

/// A Skill is switched off.
pub open spec fn step_skill_off(s: ProjectionView, name: Seq<char>) -> Result<
    ProjectionView,
    Seq<char>,
> {
    if s.active is Some {
        Err("cannot deactivate a Skill during an active turn"@)
    } else {
        Ok(
            ProjectionView {
                meta: SummaryView {
                    active_skills: s.meta.active_skills.filter(|k: SkillView| k.name != name),
                    ..s.meta
                },
                ..s
            },
        )
    }
}

/// What an event does, apart from the stamp that every event leaves.
pub open spec fn event_step(s: ProjectionView, e: EventEnvelope) -> Result<
    ProjectionView,
    Seq<char>,
> {
    match e.event {
        SessionEvent::SessionCreated(_) => Err("session_created can only be the first event"@),
        SessionEvent::RuntimeStarted(snapshot) => if !same_path(
            snapshot.workspace@,
            s.meta.workspace,
        ) {
            Err("runtime workspace does not match session"@)
        } else {
            Ok(s)
        },
        SessionEvent::SkillActivated { name, source, digest, order } => step_skill_on(
            s,
            SkillView { name: name@, source: source@, digest: digest@, order },
        ),
        SessionEvent::SkillDeactivated { name } => step_skill_off(s, name@),
        SessionEvent::TitleChanged { title } => Ok(
            ProjectionView { meta: SummaryView { title: title@, ..s.meta }, ..s },
        ),
        SessionEvent::ModelChanged { model, model_id } => Ok(
            ProjectionView {
                meta: SummaryView { model: model@, model_id: model_id@, ..s.meta },
                ..s
            },
        ),
        SessionEvent::TurnStarted(user) => step_turn_started(s, e, user.message_id, user.content@),
        SessionEvent::AssistantCompleted(a) => step_assistant(
            s,
            e,
            a.message_id,
            a.content@,
            maybe(a.reasoning_content),
            call_views(a.tool_calls@),
        ),
        SessionEvent::ToolStarted(c) => step_tool_started(s, e, c.call_id@, c.name@, c.arguments@),
        SessionEvent::ToolFinished(r) => step_tool_finished(
            s,
            e,
            r.call_id@,
            r.name@,
            r.result@,
            r.success,
        ),
        SessionEvent::TurnCompleted => step_turn_completed(s, e),
        SessionEvent::TurnFailed(failure) => step_turn_ended(
            s,
            e,
            SessionStatus::Idle,
            closing_items(e, None, TranscriptKind::Error, failure.message@),
        ),
        SessionEvent::TurnCancelled { reason } => step_turn_ended(
            s,
            e,
            SessionStatus::Idle,
            closing_items(e, None, TranscriptKind::System, "Turn cancelled: "@ + reason@),
        ),
        SessionEvent::TurnInterrupted { reason, partial_output } => step_turn_ended(
            s,
            e,
            SessionStatus::Interrupted,
            closing_items(
                e,
                maybe(partial_output),
                TranscriptKind::System,
                "Turn interrupted: "@ + reason@,
            ),
        ),
        SessionEvent::ContextReset { new_epoch } => step_reset(s, e, new_epoch),
        SessionEvent::ContextCompacted(c) => step_compacted(
            s,
            e,
            c.summary@,
            c.through_seq,
            c.through_turn_id,
            c.keep_from_turn_id,
        ),
        SessionEvent::SessionForked { parent_session_id, .. } => Ok(
            ProjectionView {
                meta: SummaryView { parent_session_id: Some(parent_session_id), ..s.meta },
                ..s
            },
        ),
        SessionEvent::BranchCreated { .. } => if s.active is Some {
            Err("cannot change branches during an active turn"@)
        } else {
            Ok(s)
        },
        SessionEvent::BranchSelected { .. } => if s.active is Some {
            Err("cannot change branches during an active turn"@)
        } else {
            Ok(s)
        },
        SessionEvent::BranchSummary { summary, .. } => step_branch_summary(s, e, summary@),
        SessionEvent::SessionArchived => if s.active is Some {
            Err("cannot archive an active session"@)
        } else {
            Ok(
                ProjectionView {
                    meta: SummaryView {
                        archived: true,
                        status: SessionStatus::Archived,
                        ..s.meta
                    },
                    ..s
                },
            )
        },
    }
}

/// The session with an event's time and place in its summary.
pub open spec fn stamped(s: ProjectionView, e: EventEnvelope) -> ProjectionView {
    ProjectionView {
        meta: SummaryView { updated_at: e.timestamp, last_seq: e.seq, ..s.meta },
        ..s
    }
}

/// The session after one more event. The first event of a log is its start and
/// changes nothing here.
pub open spec fn step(s: ProjectionView, e: EventEnvelope) -> Result<ProjectionView, Seq<char>> {
    if e.seq == 1 {
        Ok(s)
    } else if e.seq <= s.meta.last_seq {
        Err("session sequence must increase"@)
    } else {
        match event_step(s, e) {
            Ok(next) => Ok(stamped(next, e)),
            Err(m) => Err(m),
        }
    }
}

// ---------------------------------------------------------------------------
// The projection itself.
// ---------------------------------------------------------------------------

/// What a session is before anything has happened in it.
pub open spec fn first_step(first: EventEnvelope) -> Result<ProjectionView, Seq<char>> {
    if first.schema_version != SCHEMA_VERSION {
        Err("unsupported session schema version "@ + decimal(first.schema_version as nat))
    } else if first.seq != 1 {
        Err("session must start at sequence 1"@)
    } else {
        match first.event {
            SessionEvent::SessionCreated(created) => Ok(
                ProjectionView {
                    meta: SummaryView {
                        schema_version: SCHEMA_VERSION,
                        session_id: first.session_id,
                        title: created.title@,
                        workspace: created.workspace@,
                        model: created.model@,
                        model_id: created.model_id@,
                        created_at: created.created_at,
                        updated_at: first.timestamp,
                        status: SessionStatus::Idle,
                        last_seq: 1,
                        completed_turns: 0,
                        context_epoch: 0,
                        compaction_through_seq: None,
                        parent_session_id: created.parent_session_id,
                        active_branch_id: None,
                        active_head_seq: 1,
                        branch_count: 0,
                        archived: false,
                        active_skills: Seq::empty(),
                    },
                    committed: Seq::empty(),
                    completed: Seq::empty(),
                    active: None,
                    transcript: Seq::empty(),
                    compaction_summary: None,
                    retry_input: None,
                    tree: seedling(first),
                },
            ),
            _ => Err("first session event must be session_created"@),
        }
    }
}

/// The projection of the first `k` events of a log whose active path is `path`.
pub open spec fn replay_fold(events: Seq<EventEnvelope>, path: Seq<u64>, k: nat) -> Result<
    ProjectionView,
    Seq<char>,
>
    decreases k,
{
    if k <= 1 {
        first_step(events[0])
    } else {
        match replay_fold(events, path, (k - 1) as nat) {
            Err(m) => Err(m),
            Ok(s) => {
                let e = events[k - 1];
                if e.schema_version != SCHEMA_VERSION {
                    Err("unsupported session schema version "@ + decimal(e.schema_version as nat))
                } else if e.session_id != s.meta.session_id {
                    Err("session ID changed inside log"@)
                } else if e.seq != k {
                    Err(
                        "session sequence mismatch: expected "@ + decimal(k) + ", got "@ + decimal(
                            e.seq as nat,
                        ),
                    )
                } else if path.contains(e.seq) {
                    step(s, e)
                } else {
                    Ok(s)
                }
            },
        }
    }
}

/// A projection that stands where its tree stands.
pub open spec fn with_tree(s: ProjectionView, tree: TreeView) -> ProjectionView {
    ProjectionView {
        meta: SummaryView {
            active_branch_id: tree.active_branch_id,
            active_head_seq: tree.active_head_seq,
            branch_count: tree.branches.len() as usize,
            ..s.meta
        },
        tree,
        ..s
    }
}

/// The projection of a whole log: of the events on its active path, in order.
pub open spec fn projection_of(events: Seq<EventEnvelope>) -> Result<ProjectionView, Seq<char>> {
    match tree_of(events) {
        Err(m) => Err(m),
        Ok(tree) => match replay_fold(events, active_path_of(tree), events.len()) {
            Err(m) => Err(m),
            Ok(s) => Ok(
                with_tree(
                    ProjectionView {
                        meta: SummaryView {
                            last_seq: events.last().seq,
                            updated_at: events.last().timestamp,
                            ..s.meta
                        },
                        ..s
                    },
                    tree,
                ),
            ),
        },
    }
}

/// About how many tokens a message is: a quarter of its characters, rounded
/// up, and at least one.
pub open spec fn message_tokens(m: MessageView) -> nat {
    let characters = m.content.len() + optional_len(m.reasoning_content) + optional_len(
        m.tool_call_id,
    ) + match m.tool_calls {
        Some(calls) => calls_json(calls).len(),
        None => 0,
    };
    quarter(characters)
}

/// The length of a text that may not be there.
pub open spec fn optional_len(t: Option<Seq<char>>) -> nat {
    match t {
        Some(s) => s.len(),
        None => 0,
    }
}

/// A quarter, rounded up, and at least one.
pub open spec fn quarter(n: nat) -> nat {
    if n == 0 {
        1
    } else {
        (n + 3) / 4
    }
}

/// About how many tokens a list of messages is.
pub open spec fn total_tokens(messages: Seq<MessageView>) -> nat
    decreases messages.len(),
{
    if messages.len() == 0 {
        0
    } else {
        total_tokens(messages.drop_last()) + message_tokens(messages.last())
    }
}

/// A count held at the largest `usize`.
pub open spec fn held(n: nat) -> nat {
    if n > usize::MAX {
        usize::MAX as nat
    } else {
        n
    }
}

/// The messages without their places.
pub open spec fn bare(messages: Seq<StoredView>) -> Seq<MessageView> {
    messages.map_values(|m: StoredView| m.message)
}

/// The message that stands for what was compacted away.
pub open spec fn summary_messages(summary: Option<Seq<char>>) -> Seq<MessageView> {
    match summary {
        Some(text) => seq![
            plain_message("system"@, "Summary of earlier session context:\n"@ + text),
        ],
        None => Seq::empty(),
    }
}

/// What the model is sent: the summary, the completed turns, and the running
/// turn so far.
pub open spec fn context_messages(s: ProjectionView) -> Seq<MessageView> {
    summary_messages(s.compaction_summary) + bare(s.committed) + match s.active {
        Some(turn) => bare(turn.messages),
        None => Seq::empty(),
    }
}

/// One message as the summarizing model reads it.
pub open spec fn message_text(m: MessageView) -> Seq<char> {
    m.role + ": "@ + m.content + (match m.tool_calls {
        Some(calls) => "\ntool_calls: "@ + calls_json(calls),
        None => Seq::empty(),
    }) + seq!['\n']
}

/// Messages as the summarizing model reads them.
pub open spec fn messages_text(messages: Seq<StoredView>) -> Seq<char>
    decreases messages.len(),
{
    if messages.len() == 0 {
        Seq::empty()
    } else {
        messages_text(messages.drop_last()) + message_text(messages.last().message)
    }
}

/// Turns as the summarizing model reads them.
pub open spec fn turns_text(turns: Seq<TurnView>) -> Seq<char>
    decreases turns.len(),
{
    if turns.len() == 0 {
        Seq::empty()
    } else {
        let t = turns.last();
        turns_text(turns.drop_last()) + "\nTurn "@ + hyphenated(t.id.0) + " (seq "@ + decimal(
            t.started_seq as nat,
        ) + "-"@ + decimal(t.completed_seq as nat) + "):\n"@ + messages_text(t.messages)
    }
}

/// What the summarizing model is given: the summary so far, and the turns that
/// it shall now cover.
pub open spec fn plan_source(summary: Option<Seq<char>>, turns: Seq<TurnView>) -> Seq<char> {
    (match summary {
        Some(text) => "Previous summary:\n"@ + text + "\n\nNew completed turns:\n"@,
        None => Seq::empty(),
    }) + turns_text(turns)
}

/// Whether there is anything to compact: no turn runs, and there are more
/// completed turns than are always kept.
pub open spec fn compactable(s: ProjectionView) -> bool {
    s.active is None && s.completed.len() > KEEP_RECENT_TURNS
}

/// Puts an item at the end of a list, which shows in the views.
proof fn lemma_items_push(items: Seq<TranscriptItem>, i: TranscriptItem)
    ensures
        item_views(items.push(i)) == item_views(items).push(i@),
{
    assert(item_views(items.push(i)) =~= item_views(items).push(i@));
}

proof fn lemma_stored_push(messages: Seq<StoredMessage>, m: StoredMessage)
    ensures
        stored_views(messages.push(m)) == stored_views(messages).push(m@),
{
    assert(stored_views(messages.push(m)) =~= stored_views(messages).push(m@));
}

/// Where a Skill goes: behind all that do not come after it.
proof fn lemma_placed_at(skills: Seq<SkillView>, new: SkillView, k: int)
    requires
        0 <= k <= skills.len(),
        k > 0 ==> skills[k - 1].order <= new.order,
        forall|i: int| k <= i < skills.len() ==> (#[trigger] skills[i]).order > new.order,
    ensures
        placed(skills, new) == skills.insert(k, new),
    decreases skills.len(),
{
    if k < skills.len() {
        let t = skills.drop_last();
        assert forall|i: int| k <= i < t.len() implies (#[trigger] t[i]).order > new.order by {
            assert(t[i] == skills[i]);
        }
        assert(k > 0 ==> t[k - 1] == skills[k - 1]);
        assert(skills[skills.len() - 1].order > new.order);
        lemma_placed_at(t, new, k);
        assert(t.insert(k, new).push(skills.last()) =~= skills.insert(k, new));
    } else {
        assert(skills.insert(k, new) =~= skills.push(new));
    }
}

/// A list without repetition, as a set, loses one member with its element.
proof fn lemma_set_remove(list: Seq<String>, k: int)
    requires
        0 <= k < list.len(),
        texts(list).no_duplicates(),
    ensures
        texts(list.remove(k)).no_duplicates(),
        texts(list.remove(k)).to_set() == texts(list).to_set().remove(texts(list)[k]),
{
    let t = texts(list);
    let r = texts(list.remove(k));
    assert(r =~= t.remove(k));
    assert forall|x: Seq<char>| #[trigger] r.to_set().contains(x) <==> t.to_set().remove(
        t[k],
    ).contains(x) by {
        if r.contains(x) {
            let n = choose|n: int| 0 <= n < r.len() && r[n] == x;
            let m = if n < k {
                n
            } else {
                n + 1
            };
            assert(t[m] == x);
        }
        if t.contains(x) && x != t[k] {
            let m = choose|m: int| 0 <= m < t.len() && t[m] == x;
            let n = if m < k {
                m
            } else {
                m - 1
            };
            assert(r[n] == x);
        }
    }
    assert(r.to_set() =~= t.to_set().remove(t[k]));
}

/// A list without repetition, as a set, gains one member with an element.
proof fn lemma_set_push(list: Seq<String>, s: String)
    requires
        texts(list).no_duplicates(),
        !texts(list).contains(s@),
    ensures
        texts(list.push(s)).no_duplicates(),
        texts(list.push(s)).to_set() == texts(list).to_set().insert(s@),
{
    let t = texts(list);
    lemma_texts_push(list, s);
    let r = t.push(s@);
    assert forall|x: Seq<char>| #[trigger] r.to_set().contains(x) <==> t.to_set().insert(
        s@,
    ).contains(x) by {
        if t.contains(x) {
            let m = choose|m: int| 0 <= m < t.len() && t[m] == x;
            assert(r[m] == x);
        }
        if x == s@ {
            assert(r[t.len() as int] == x);
        }
    }
    assert(r.to_set() =~= t.to_set().insert(s@));
}

/// A list is empty exactly when it is the empty set.
proof fn lemma_set_empty(list: Seq<String>)
    ensures
        list.len() == 0 <==> texts(list).to_set() == Set::<Seq<char>>::empty(),
{
    if list.len() == 0 {
        assert(texts(list).to_set() =~= Set::<Seq<char>>::empty());
    } else {
        assert(texts(list).to_set().contains(texts(list)[0]));
    }
}

/// The position of a text in a list.
fn position(list: &Vec<String>, item: &str) -> (r: Option<usize>)
    ensures
        match r {
            Some(k) => k < list.len() && texts(list@)[k as int] == item@,
            None => !texts(list@).contains(item@),
        },
        r is Some <==> texts(list@).to_set().contains(item@),
{
    let mut i: usize = 0;
    while i < list.len()
        invariant
            i <= list.len(),
            forall|j: int| 0 <= j < i ==> #[trigger] texts(list@)[j] != item@,
        decreases list.len() - i,
    {
        if same(list[i].as_str(), item) {
            assert(texts(list@)[i as int] == item@);
            return Some(i);
        }
        i += 1;
    }
    None
}

impl ActiveTurn {
    /// No call is listed twice.
    pub open spec fn listed_once(&self) -> bool {
        texts(self.unresolved@).no_duplicates() && texts(self.started@).no_duplicates()
    }
}

impl Projection {
    /// What holds of every projection that this crate makes.
    pub closed spec fn wf(&self) -> bool {
        &&& coherent(self@)
        &&& rooted(self@.tree.nodes)
        &&& self.active matches Some(turn) ==> turn.listed_once()
    }

    /// The summary shows in the view.
    pub(crate) proof fn lemma_meta(&self)
        ensures
            self@.meta == self.meta@,
    {
    }

    /// A projection is coherent.
    pub proof fn lemma_wf(&self)
        requires
            self.wf(),
        ensures
            coherent(self@),
            rooted(self@.tree.nodes),
    {
    }

    /// The projection of a log's first event.
    pub fn from_first(first: &EventEnvelope) -> (r: Result<Self, Error>)
        ensures
            match first_step(*first) {
                Ok(s) => r matches Ok(p) && p@ == s && p.wf(),
                Err(m) => r matches Err(e) && e@ == m,
            },
    {
        if first.schema_version != SCHEMA_VERSION {
            return Err(
                fail_with(
                    "unsupported session schema version ",
                    decimal_of(first.schema_version as u64).as_str(),
                ),
            );
        }
        if first.seq != 1 {
            return Err(fail("session must start at sequence 1"));
        }
        match &first.event {
            SessionEvent::SessionCreated(created) => {
                let out = Projection {
                    meta: SessionSummary {
                        schema_version: SCHEMA_VERSION,
                        session_id: first.session_id,
                        title: created.title.clone(),
                        workspace: created.workspace.clone(),
                        model: created.model.clone(),
                        model_id: created.model_id.clone(),
                        created_at: created.created_at,
                        updated_at: first.timestamp,
                        status: SessionStatus::Idle,
                        last_seq: 1,
                        completed_turns: 0,
                        context_epoch: 0,
                        compaction_through_seq: None,
                        parent_session_id: created.parent_session_id,
                        active_branch_id: None,
                        active_head_seq: 1,
                        branch_count: 0,
                        archived: false,
                        active_skills: Vec::new(),
                    },
                    committed: Vec::new(),
                    completed: Vec::new(),
                    active: None,
                    transcript: Transcript { items: Vec::new() },
                    compaction_summary: None,
                    retry_input: None,
                    tree: SessionTree::seed(first),
                };
                assert(out@ =~= first_step(*first)->Ok_0);
                assert(coherent(out@));
                Ok(out)
            },
            _ => Err(fail("first session event must be session_created")),
        }
    }

    /// The running turn that an event belongs to, by its identifier.
    fn check_turn(&self, event: &EventEnvelope, none: &str, other: &str) -> (r: Result<
        TurnId,
        Error,
    >)
        ensures
            match turn_fault(self@, *event, none@, other@) {
                Some(m) => r matches Err(e) && e@ == m,
                None => r matches Ok(id) && event.turn_id == Some(id) && self.active is Some
                    && self.active->0.id == id,
            },
    {
        match event.turn_id {
            None => Err(fail("turn event is missing turn_id")),
            Some(id) => match &self.active {
                None => Err(fail(none)),
                Some(turn) => if turn.id != id {
                    Err(fail(other))
                } else {
                    Ok(id)
                },
            },
        }
    }

    /// Puts an item at the end of the transcript.
    fn note(&mut self, entry: TranscriptItem)
        ensures
            final(self)@ == noted(old(self)@, entry@),
            final(self).active == old(self).active,
    {
        proof {
            lemma_items_push(self.transcript.items@, entry);
        }
        self.transcript.items.push(entry);
    }

    fn on_skill_activated(
        &mut self,
        name: &String,
        source: &String,
        digest: &String,
        order: usize,
    ) -> (r: Result<(), Error>)
        ensures
            ({
                let new = SkillView { name: name@, source: source@, digest: digest@, order };
                match step_skill_on(old(self)@, new) {
                    Ok(s) => r is Ok && final(self)@ == s,
                    Err(m) => r matches Err(e) && e@ == m && final(self)@ == old(self)@,
                }
            }),
            final(self).active == old(self).active,
    {
        if self.active.is_some() {
            return Err(fail("cannot activate a Skill during an active turn"));
        }
        if is_blank(name.as_str()) {
            return Err(fail("Skill name cannot be empty"));
        }
        if is_blank(digest.as_str()) {
            return Err(fail("Skill digest cannot be empty"));
        }
        let ghost names = skill_names(self@.meta.active_skills);
        let mut i: usize = 0;
        while i < self.meta.active_skills.len()
            invariant
                i <= self.meta.active_skills.len(),
                *self == *old(self),
                names == skill_names(self@.meta.active_skills),
                self.active is None,
                !blank(name@),
                !blank(digest@),
                forall|j: int| 0 <= j < i ==> #[trigger] names[j] != name@,
            decreases self.meta.active_skills.len() - i,
        {
            let known = &self.meta.active_skills[i];
            assert(names[i as int] == known@.name);
            if same(known.name.as_str(), name.as_str()) {
                return Err(fail_about("Skill ", name.as_str(), " is already active"));
            }
            i += 1;
        }
        let mut k: usize = self.meta.active_skills.len();
        while k > 0 && self.meta.active_skills[k - 1].order > order
            invariant
                k <= self.meta.active_skills.len(),
                *self == *old(self),
                forall|j: int|
                    k <= j < self.meta.active_skills.len() ==> (
                    #[trigger] self.meta.active_skills@[j]).order > order,
            decreases k,
        {
            k -= 1;
        }
        let record = ActiveSkillRecord {
            name: name.clone(),
            source: source.clone(),
            digest: digest.clone(),
            order,
        };
        proof {
            let skills = self@.meta.active_skills;
            assert forall|j: int| k <= j < skills.len() implies (#[trigger] skills[j]).order
                > record@.order by {
                assert(skills[j] == self.meta.active_skills@[j]@);
            }
            lemma_placed_at(skills, record@, k as int);
        }
        self.meta.active_skills.insert(k, record);
        assert(self@.meta.active_skills =~= old(self)@.meta.active_skills.insert(
            k as int,
            record@,
        ));
        Ok(())
    }

    fn on_skill_deactivated(&mut self, name: &String) -> (r: Result<(), Error>)
        ensures
            match step_skill_off(old(self)@, name@) {
                Ok(s) => r is Ok && final(self)@ == s,
                Err(m) => r matches Err(e) && e@ == m && final(self)@ == old(self)@,
            },
            final(self).active == old(self).active,
    {
        if self.active.is_some() {
            return Err(fail("cannot deactivate a Skill during an active turn"));
        }
        let ghost keep = |k: SkillView| k.name != name@;
        let ghost skills = self@.meta.active_skills;
        let mut kept: Vec<ActiveSkillRecord> = Vec::new();
        let mut i: usize = 0;
        proof {
            reveal(Seq::filter);
            assert(skills.take(0).filter(keep) =~= skill_views(kept@));
        }
        while i < self.meta.active_skills.len()
            invariant
                i <= self.meta.active_skills.len(),
                *self == *old(self),
                skills == self@.meta.active_skills,
                keep == (|k: SkillView| k.name != name@),
                skill_views(kept@) == skills.take(i as int).filter(keep),
            decreases self.meta.active_skills.len() - i,
        {
            let known = &self.meta.active_skills[i];
            proof {
                reveal(Seq::filter);
                assert(skills.take(i + 1).drop_last() =~= skills.take(i as int));
                assert(skills.take(i + 1).last() == known@);
            }
            if !same(known.name.as_str(), name.as_str()) {
                assert(skill_views(kept@.push(*known)) =~= skill_views(kept@).push(known@));
                kept.push(known.clone());
            }
            i += 1;
        }
        assert(skills.take(i as int) =~= skills);
        self.meta.active_skills = kept;
        Ok(())
    }

    fn on_turn_started(&mut self, event: &EventEnvelope, user: &UserMessageRecord) -> (r: Result<
        (),
        Error,
    >)
        ensures
            match step_turn_started(old(self)@, *event, user.message_id, user.content@) {
                Ok(s) => r is Ok && final(self)@ == s && (final(self).active matches Some(
                    turn,
                ) ==> turn.listed_once()),
                Err(m) => r matches Err(e) && e@ == m && *final(self) == *old(self),
            },
    {
        if self.active.is_some() {
            return Err(fail("cannot start a second active turn"));
        }
        let id = match event.turn_id {
            None => {
                return Err(fail("turn event is missing turn_id"));
            },
            Some(id) => id,
        };
        self.note(
            TranscriptItem {
                id: user.message_id,
                kind: TranscriptKind::User,
                content: user.content.clone(),
                turn_id: Some(id),
                tool_call_id: None,
                interrupted: false,
            },
        );
        let message = StoredMessage {
            seq: event.seq,
            message: ChatMessage::plain("user", user.content.clone()),
        };
        let mut messages: Vec<StoredMessage> = Vec::new();
        messages.push(message);
        let turn = ActiveTurn {
            id,
            started_seq: event.seq,
            input: user.content.clone(),
            messages,
            unresolved: Vec::new(),
            started: Vec::new(),
        };
        proof {
            lemma_set_empty(turn.unresolved@);
            lemma_set_empty(turn.started@);
            assert(turn@.messages =~= seq![message@]);
        }
        self.active = Some(turn);
        self.meta.status = SessionStatus::Running;
        assert(self@ =~= step_turn_started(
            old(self)@,
            *event,
            user.message_id,
            user.content@,
        )->Ok_0);
        Ok(())
    }

    fn on_assistant(&mut self, event: &EventEnvelope, a: &AssistantRecord) -> (r: Result<(), Error>)
        requires
            old(self).active matches Some(turn) ==> turn.listed_once(),
        ensures
            match step_assistant(
                old(self)@,
                *event,
                a.message_id,
                a.content@,
                maybe(a.reasoning_content),
                call_views(a.tool_calls@),
            ) {
                Ok(s) => r is Ok && final(self)@ == s && (final(self).active matches Some(
                    turn,
                ) ==> turn.listed_once()),
                Err(m) => r matches Err(e) && e@ == m && *final(self) == *old(self),
            },
    {
        match self.check_turn(
            event,
            "session has no active turn",
            "event turn ID does not match active turn",
        ) {
            Ok(_) => {},
            Err(e) => {
                return Err(e);
            },
        }
        let clear = match &self.active {
            Some(turn) => turn.unresolved.len() == 0,
            None => true,
        };
        proof {
            lemma_set_empty(self.active->0.unresolved@);
        }
        if !clear {
            return Err(fail("assistant response arrived before prior tool group completed"));
        }
        let known: Vec<String> = match &self.active {
            Some(turn) => asked(&turn.messages),
            None => Vec::new(),
        };
        let ids = match declared(&known, &a.tool_calls) {
            Ok(ids) => ids,
            Err(e) => {
                return Err(e);
            },
        };
        let message = StoredMessage {
            seq: event.seq,
            message: ChatMessage {
                role: "assistant".to_owned(),
                content: a.content.clone(),
                reasoning_content: a.reasoning_content.clone(),
                tool_call_id: None,
                tool_calls: if a.tool_calls.len() > 0 {
                    Some(copy_calls(&a.tool_calls))
                } else {
                    None
                },
            },
        };
        match self.active.take() {
            Some(turn) => {
                let mut turn = turn;
                proof {
                    lemma_stored_push(turn.messages@, message);
                }
                turn.messages.push(message);
                turn.unresolved = ids;
                self.active = Some(turn);
            },
            None => {},
        }
        if !a.content.as_str().is_empty() {
            self.note(
                TranscriptItem {
                    id: a.message_id,
                    kind: TranscriptKind::Agent,
                    content: a.content.clone(),
                    turn_id: event.turn_id,
                    tool_call_id: None,
                    interrupted: false,
                },
            );
        }
        assert(self@ =~= step_assistant(
            old(self)@,
            *event,
            a.message_id,
            a.content@,
            maybe(a.reasoning_content),
            call_views(a.tool_calls@),
        )->Ok_0);
        Ok(())
    }

    fn on_tool_started(&mut self, event: &EventEnvelope, call: &ToolCallRecord) -> (r: Result<
        (),
        Error,
    >)
        requires
            old(self).active matches Some(turn) ==> turn.listed_once(),
        ensures
            match step_tool_started(
                old(self)@,
                *event,
                call.call_id@,
                call.name@,
                call.arguments@,
            ) {
                Ok(s) => r is Ok && final(self)@ == s && (final(self).active matches Some(
                    turn,
                ) ==> turn.listed_once()),
                Err(m) => r matches Err(e) && e@ == m && *final(self) == *old(self),
            },
    {
        match self.check_turn(
            event,
            "session has no active turn",
            "event turn ID does not match active turn",
        ) {
            Ok(_) => {},
            Err(e) => {
                return Err(e);
            },
        }
        let id = call.call_id.as_str();
        let (declared, begun) = match &self.active {
            Some(turn) => (
                position(&turn.unresolved, id).is_some(),
                position(&turn.started, id).is_some(),
            ),
            None => (false, false),
        };
        if !declared {
            return Err(fail_about("tool call ", id, " was not declared by assistant"));
        }
        if begun {
            return Err(fail_about("tool call ", id, " started twice"));
        }
        match self.active.take() {
            Some(turn) => {
                let mut turn = turn;
                proof {
                    lemma_set_push(turn.started@, call.call_id);
                }
                turn.started.push(call.call_id.clone());
                self.active = Some(turn);
            },
            None => {},
        }
        let mut content = call.name.clone();
        content.append(" ");
        content.append(call.arguments.as_str());
        self.note(
            TranscriptItem {
                id: event.event_id,
                kind: TranscriptKind::Tool,
                content,
                turn_id: event.turn_id,
                tool_call_id: Some(call.call_id.clone()),
                interrupted: false,
            },
        );
        assert(self@ =~= step_tool_started(
            old(self)@,
            *event,
            call.call_id@,
            call.name@,
            call.arguments@,
        )->Ok_0);
        Ok(())
    }

    /// Says in the transcript how a call ended.
    fn finish_item(&mut self, call_id: &String, line: String)
        ensures
            final(self)@ == (ProjectionView {
                transcript: items_finished(old(self)@.transcript, call_id@, line@),
                ..old(self)@
            }),
            final(self).active == old(self).active,
    {
        let ghost items = self@.transcript;
        let mut k: usize = self.transcript.items.len();
        assert(items.take(k as int) =~= items);
        while k > 0
            invariant
                k <= self.transcript.items.len(),
                *self == *old(self),
                items == self@.transcript,
                last_item(items, call_id@) == last_item(items.take(k as int), call_id@),
            decreases k,
        {
            let entry = &self.transcript.items[k - 1];
            proof {
                assert(items.take(k as int).drop_last() =~= items.take(k - 1));
                assert(items.take(k as int).last() == entry@);
            }
            let mine = match &entry.tool_call_id {
                Some(id) => same(id.as_str(), call_id.as_str()),
                None => false,
            };
            if mine {
                let updated = TranscriptItem {
                    id: entry.id,
                    kind: entry.kind,
                    content: line,
                    turn_id: entry.turn_id,
                    tool_call_id: entry.tool_call_id.clone(),
                    interrupted: entry.interrupted,
                };
                self.transcript.items.set(k - 1, updated);
                assert(self@.transcript =~= items.update(k - 1, updated@));
                return;
            }
            k -= 1;
        }
        assert(last_item(items, call_id@) == -1);
    }

    fn on_tool_finished(&mut self, event: &EventEnvelope, result: &ToolResultRecord) -> (r: Result<
        (),
        Error,
    >)
        requires
            old(self).active matches Some(turn) ==> turn.listed_once(),
        ensures
            match step_tool_finished(
                old(self)@,
                *event,
                result.call_id@,
                result.name@,
                result.result@,
                result.success,
            ) {
                Ok(s) => r is Ok && final(self)@ == s && (final(self).active matches Some(
                    turn,
                ) ==> turn.listed_once()),
                Err(m) => r matches Err(e) && e@ == m && *final(self) == *old(self),
            },
    {
        match self.check_turn(
            event,
            "session has no active turn",
            "event turn ID does not match active turn",
        ) {
            Ok(_) => {},
            Err(e) => {
                return Err(e);
            },
        }
        let id = result.call_id.as_str();
        let (begun, waits) = match &self.active {
            Some(turn) => (position(&turn.started, id), position(&turn.unresolved, id)),
            None => (None, None),
        };
        let begun: usize = match begun {
            Some(k) => k,
            None => {
                return Err(fail_about("tool call ", id, " finished before it started"));
            },
        };
        let waits: usize = match waits {
            Some(k) => k,
            None => {
                return Err(fail_about("tool call ", id, " has no unresolved assistant call"));
            },
        };
        let message = StoredMessage {
            seq: event.seq,
            message: ChatMessage {
                role: "tool".to_owned(),
                content: result.result.clone(),
                reasoning_content: None,
                tool_call_id: Some(result.call_id.clone()),
                tool_calls: None,
            },
        };
        match self.active.take() {
            Some(turn) => {
                let mut turn = turn;
                proof {
                    lemma_set_remove(turn.started@, begun as int);
                    lemma_set_remove(turn.unresolved@, waits as int);
                    lemma_stored_push(turn.messages@, message);
                }
                turn.started.remove(begun);
                turn.unresolved.remove(waits);
                turn.messages.push(message);
                self.active = Some(turn);
            },
            None => {},
        }
        let mut line = result.name.clone();
        if result.success {
            line.append(" completed: ");
        } else {
            line.append(" failed: ");
        }
        line.append(result.result.as_str());
        self.finish_item(&result.call_id, line);
        assert(self@ =~= step_tool_finished(
            old(self)@,
            *event,
            result.call_id@,
            result.name@,
            result.result@,
            result.success,
        )->Ok_0);
        Ok(())
    }

    fn on_turn_completed(&mut self, event: &EventEnvelope) -> (r: Result<(), Error>)
        ensures
            match step_turn_completed(old(self)@, *event) {
                Ok(s) => r is Ok && final(self)@ == s && final(self).active is None,
                Err(m) => r matches Err(e) && e@ == m && *final(self) == *old(self),
            },
    {
        match self.check_turn(
            event,
            "no active turn to complete",
            "completed turn ID does not match active turn",
        ) {
            Ok(_) => {},
            Err(e) => {
                return Err(e);
            },
        }
        let clear = match &self.active {
            Some(turn) => turn.unresolved.len() == 0,
            None => true,
        };
        proof {
            lemma_set_empty(self.active->0.unresolved@);
        }
        if !clear {
            return Err(fail("cannot complete turn with unresolved tool calls"));
        }
        match self.active.take() {
            Some(turn) => {
                let ghost before = self@.committed;
                let mut copies = copy_stored(&turn.messages);
                let ghost added = copies@;
                self.committed.append(&mut copies);
                assert(stored_views(self.committed@) =~= before + stored_views(added));
                let done = CompletedTurn {
                    id: turn.id,
                    started_seq: turn.started_seq,
                    completed_seq: event.seq,
                    messages: turn.messages,
                };
                assert(turn_views(self.completed@.push(done)) =~= turn_views(self.completed@).push(
                    done@,
                ));
                self.completed.push(done);
            },
            None => {},
        }
        self.meta.completed_turns = self.meta.completed_turns.saturating_add(1);
        self.meta.status = SessionStatus::Idle;
        self.retry_input = None;
        assert(self@ =~= step_turn_completed(old(self)@, *event)->Ok_0);
        Ok(())
    }

    /// Takes the running turn out, so that its input may be tried again.
    fn drop_turn(&mut self, event: &EventEnvelope, status: SessionStatus) -> (r: Result<(), Error>)
        ensures
            match turn_fault(
                old(self)@,
                *event,
                "session has no active turn"@,
                "terminal turn ID does not match active turn"@,
            ) {
                None => r is Ok && final(self)@ == turn_dropped(old(self)@, status)
                    && final(self).active is None,
                Some(m) => r matches Err(e) && e@ == m && *final(self) == *old(self),
            },
    {
        match self.check_turn(
            event,
            "session has no active turn",
            "terminal turn ID does not match active turn",
        ) {
            Ok(_) => {},
            Err(e) => {
                return Err(e);
            },
        }
        match self.active.take() {
            Some(turn) => {
                self.retry_input = Some(turn.input);
            },
            None => {},
        }
        self.meta.status = status;
        assert(self@ =~= turn_dropped(old(self)@, status));
        Ok(())
    }

    /// Ends the running turn badly, with one item in the transcript.
    fn end_turn(
        &mut self,
        event: &EventEnvelope,
        status: SessionStatus,
        partial: Option<String>,
        kind: TranscriptKind,
        content: String,
    ) -> (r: Result<(), Error>)
        ensures
            match step_turn_ended(
                old(self)@,
                *event,
                status,
                closing_items(*event, maybe(partial), kind, content@),
            ) {
                Ok(s) => r is Ok && final(self)@ == s && final(self).active is None,
                Err(m) => r matches Err(e) && e@ == m && *final(self) == *old(self),
            },
    {
        let ghost ending = closing_items(*event, maybe(partial), kind, content@);
        match self.drop_turn(event, status) {
            Ok(()) => {},
            Err(e) => {
                return Err(e);
            },
        }
        let ghost dropped = self@;
        if let Some(text) = partial {
            self.note(
                TranscriptItem {
                    id: event.event_id,
                    kind: TranscriptKind::Agent,
                    content: text,
                    turn_id: event.turn_id,
                    tool_call_id: None,
                    interrupted: true,
                },
            );
        }
        self.note(
            TranscriptItem {
                id: event.event_id,
                kind,
                content,
                turn_id: event.turn_id,
                tool_call_id: None,
                interrupted: true,
            },
        );
        assert(self@.transcript =~= dropped.transcript + ending);
        assert(self@ =~= step_turn_ended(old(self)@, *event, status, ending)->Ok_0);
        Ok(())
    }

    /// Notes a plain event of the system in the transcript.
    fn note_system(&mut self, event: &EventEnvelope, content: &str)
        ensures
            final(self)@ == noted(
                old(self)@,
                item(event.event_id, TranscriptKind::System, content@, None, false),
            ),
            final(self).active == old(self).active,
    {
        self.note(
            TranscriptItem {
                id: event.event_id,
                kind: TranscriptKind::System,
                content: content.to_owned(),
                turn_id: None,
                tool_call_id: None,
                interrupted: false,
            },
        );
    }

    fn on_reset(&mut self, event: &EventEnvelope, new_epoch: u64) -> (r: Result<(), Error>)
        ensures
            match step_reset(old(self)@, *event, new_epoch) {
                Ok(s) => r is Ok && final(self)@ == s,
                Err(m) => r matches Err(e) && e@ == m && final(self)@ == old(self)@,
            },
            final(self).active == old(self).active,
    {
        if self.active.is_some() {
            return Err(fail("cannot reset context with active turn"));
        }
        if self.meta.context_epoch == u64::MAX || new_epoch != self.meta.context_epoch + 1 {
            return Err(fail("context epoch must increment by one"));
        }
        self.meta.context_epoch = new_epoch;
        self.committed = Vec::new();
        self.completed = Vec::new();
        self.compaction_summary = None;
        self.meta.compaction_through_seq = None;
        self.note_system(event, "Context reset.");
        assert(self@ =~= step_reset(old(self)@, *event, new_epoch)->Ok_0);
        Ok(())
    }

    /// The position of a completed turn's end.
    fn find_boundary(&self, id: TurnId, seq: u64) -> (r: Option<usize>)
        ensures
            match r {
                Some(k) => k < self.completed.len() && slot_of(
                    boundaries(self@.completed),
                    (id, seq),
                ) == k,
                None => slot_of(boundaries(self@.completed), (id, seq)) == self.completed.len(),
            },
            self@.completed.len() == self.completed.len(),
    {
        let ghost all = boundaries(self@.completed);
        let mut i: usize = 0;
        while i < self.completed.len()
            invariant
                i <= self.completed.len(),
                all == boundaries(self@.completed),
                forall|j: int| 0 <= j < i ==> all[j] != (id, seq),
            decreases self.completed.len() - i,
        {
            let turn = &self.completed[i];
            assert(all[i as int] == (turn.id, turn.completed_seq));
            if turn.id == id && turn.completed_seq == seq {
                proof {
                    lemma_slot_is(all, (id, seq), i as int);
                }
                return Some(i);
            }
            i += 1;
        }
        proof {
            lemma_slot_is(all, (id, seq), i as int);
        }
        None
    }

    /// Drops the messages and turns up to a place in the log.
    fn cut_through(&mut self, seq: u64)
        ensures
            final(self)@ == (ProjectionView {
                committed: messages_after(old(self)@.committed, seq),
                completed: turns_after(old(self)@.completed, seq),
                ..old(self)@
            }),
            final(self).active == old(self).active,
    {
        let ghost keep = |m: StoredView| m.seq > seq;
        let ghost keep_turn = |t: TurnView| t.completed_seq > seq;
        let ghost messages = self@.committed;
        let ghost turns = self@.completed;
        let mut kept: Vec<StoredMessage> = Vec::new();
        let mut i: usize = 0;
        proof {
            reveal(Seq::filter);
            assert(messages.take(0).filter(keep) =~= stored_views(kept@));
        }
        while i < self.committed.len()
            invariant
                i <= self.committed.len(),
                *self == *old(self),
                messages == self@.committed,
                keep == (|m: StoredView| m.seq > seq),
                stored_views(kept@) == messages.take(i as int).filter(keep),
            decreases self.committed.len() - i,
        {
            let stored = &self.committed[i];
            proof {
                reveal(Seq::filter);
                assert(messages.take(i + 1).drop_last() =~= messages.take(i as int));
                assert(messages.take(i + 1).last() == stored@);
            }
            if stored.seq > seq {
                let copy = stored.clone();
                proof {
                    lemma_stored_push(kept@, copy);
                }
                kept.push(copy);
            }
            i += 1;
        }
        assert(messages.take(i as int) =~= messages);
        let mut kept_turns: Vec<CompletedTurn> = Vec::new();
        let mut j: usize = 0;
        proof {
            reveal(Seq::filter);
            assert(turns.take(0).filter(keep_turn) =~= turn_views(kept_turns@));
        }
        while j < self.completed.len()
            invariant
                j <= self.completed.len(),
                *self == *old(self),
                turns == self@.completed,
                keep_turn == (|t: TurnView| t.completed_seq > seq),
                turn_views(kept_turns@) == turns.take(j as int).filter(keep_turn),
            decreases self.completed.len() - j,
        {
            let turn = &self.completed[j];
            proof {
                reveal(Seq::filter);
                assert(turns.take(j + 1).drop_last() =~= turns.take(j as int));
                assert(turns.take(j + 1).last() == turn@);
            }
            if turn.completed_seq > seq {
                let copy = turn.clone();
                assert(turn_views(kept_turns@.push(copy)) =~= turn_views(kept_turns@).push(copy@));
                kept_turns.push(copy);
            }
            j += 1;
        }
        assert(turns.take(j as int) =~= turns);
        self.committed = kept;
        self.completed = kept_turns;
    }

    fn on_compacted(&mut self, event: &EventEnvelope, c: &CompactionRecord) -> (r: Result<
        (),
        Error,
    >)
        ensures
            match step_compacted(
                old(self)@,
                *event,
                c.summary@,
                c.through_seq,
                c.through_turn_id,
                c.keep_from_turn_id,
            ) {
                Ok(s) => r is Ok && final(self)@ == s,
                Err(m) => r matches Err(e) && e@ == m && final(self)@ == old(self)@,
            },
            final(self).active == old(self).active,
    {
        if self.active.is_some() {
            return Err(fail("cannot compact context with active turn"));
        }
        if is_blank(c.summary.as_str()) {
            return Err(fail("compaction summary cannot be empty"));
        }
        let cutoff: usize = match self.find_boundary(c.through_turn_id, c.through_seq) {
            Some(k) => k,
            None => {
                return Err(fail("compaction cutoff is not a completed turn boundary"));
            },
        };
        let follows: Option<TurnId> = if cutoff + 1 < self.completed.len() {
            Some(self.completed[cutoff + 1].id)
        } else {
            None
        };
        let agrees = match (follows, c.keep_from_turn_id) {
            (Some(a), Some(b)) => a == b,
            (None, None) => true,
            _ => false,
        };
        if !agrees {
            return Err(fail("compaction keep_from turn does not follow cutoff"));
        }
        self.cut_through(c.through_seq);
        self.compaction_summary = Some(c.summary.clone());
        self.meta.compaction_through_seq = Some(c.through_seq);
        self.note_system(event, "Context compacted.");
        assert(self@ =~= step_compacted(
            old(self)@,
            *event,
            c.summary@,
            c.through_seq,
            c.through_turn_id,
            c.keep_from_turn_id,
        )->Ok_0);
        Ok(())
    }

    fn on_branch_summary(&mut self, event: &EventEnvelope, summary: &String) -> (r: Result<
        (),
        Error,
    >)
        ensures
            match step_branch_summary(old(self)@, *event, summary@) {
                Ok(s) => r is Ok && final(self)@ == s,
                Err(m) => r matches Err(e) && e@ == m && final(self)@ == old(self)@,
            },
            final(self).active == old(self).active,
    {
        if self.active.is_some() {
            return Err(fail("cannot add a branch summary during an active turn"));
        }
        if is_blank(summary.as_str()) {
            return Err(fail("branch summary cannot be empty"));
        }
        let mut content: String = "Summary from another branch:\n".to_owned();
        content.append(summary.as_str());
        let message = StoredMessage {
            seq: event.seq,
            message: ChatMessage::plain("system", content),
        };
        proof {
            lemma_stored_push(self.committed@, message);
        }
        self.committed.push(message);
        self.note_system(event, "Branch summary added.");
        assert(self@ =~= step_branch_summary(old(self)@, *event, summary@)->Ok_0);
        Ok(())
    }

    /// Lets an event act, apart from the stamp that every event leaves.
    fn act(&mut self, event: &EventEnvelope) -> (r: Result<(), Error>)
        requires
            old(self).active matches Some(turn) ==> turn.listed_once(),
        ensures
            match event_step(old(self)@, *event) {
                Ok(s) => r is Ok && final(self)@ == s,
                Err(m) => r matches Err(e) && e@ == m && final(self)@ == old(self)@,
            },
            final(self).active matches Some(turn) ==> turn.listed_once(),
    {
        match &event.event {
            SessionEvent::SessionCreated(_) => {
                Err(fail("session_created can only be the first event"))
            },
            SessionEvent::RuntimeStarted(snapshot) => {
                if !is_same_path(snapshot.workspace.as_str(), self.meta.workspace.as_str()) {
                    return Err(fail("runtime workspace does not match session"));
                }
                Ok(())
            },
            SessionEvent::SkillActivated { name, source, digest, order } => {
                self.on_skill_activated(name, source, digest, *order)
            },
            SessionEvent::SkillDeactivated { name } => self.on_skill_deactivated(name),
            SessionEvent::TitleChanged { title } => {
                self.meta.title = title.clone();
                assert(self@ =~= event_step(old(self)@, *event)->Ok_0);
                Ok(())
            },
            SessionEvent::ModelChanged { model, model_id } => {
                self.meta.model = model.clone();
                self.meta.model_id = model_id.clone();
                assert(self@ =~= event_step(old(self)@, *event)->Ok_0);
                Ok(())
            },
            SessionEvent::TurnStarted(user) => self.on_turn_started(event, user),
            SessionEvent::AssistantCompleted(a) => self.on_assistant(event, a),
            SessionEvent::ToolStarted(call) => self.on_tool_started(event, call),
            SessionEvent::ToolFinished(result) => self.on_tool_finished(event, result),
            SessionEvent::TurnCompleted => self.on_turn_completed(event),
            SessionEvent::TurnFailed(failure) => self.end_turn(
                event,
                SessionStatus::Idle,
                None,
                TranscriptKind::Error,
                failure.message.clone(),
            ),
            SessionEvent::TurnCancelled { reason } => {
                let mut content: String = "Turn cancelled: ".to_owned();
                content.append(reason.as_str());
                self.end_turn(event, SessionStatus::Idle, None, TranscriptKind::System, content)
            },
            SessionEvent::TurnInterrupted { reason, partial_output } => {
                let mut content: String = "Turn interrupted: ".to_owned();
                content.append(reason.as_str());
                self.end_turn(
                    event,
                    SessionStatus::Interrupted,
                    partial_output.clone(),
                    TranscriptKind::System,
                    content,
                )
            },
            SessionEvent::ContextReset { new_epoch } => self.on_reset(event, *new_epoch),
            SessionEvent::ContextCompacted(c) => self.on_compacted(event, c),
            SessionEvent::SessionForked { parent_session_id, through_seq: _ } => {
                self.meta.parent_session_id = Some(*parent_session_id);
                assert(self@ =~= event_step(old(self)@, *event)->Ok_0);
                Ok(())
            },
            SessionEvent::BranchCreated { .. } => {
                if self.active.is_some() {
                    return Err(fail("cannot change branches during an active turn"));
                }
                Ok(())
            },
            SessionEvent::BranchSelected { .. } => {
                if self.active.is_some() {
                    return Err(fail("cannot change branches during an active turn"));
                }
                Ok(())
            },
            SessionEvent::BranchSummary { summary, .. } => self.on_branch_summary(event, summary),
            SessionEvent::SessionArchived => {
                if self.active.is_some() {
                    return Err(fail("cannot archive an active session"));
                }
                self.meta.archived = true;
                self.meta.status = SessionStatus::Archived;
                assert(self@ =~= event_step(old(self)@, *event)->Ok_0);
                Ok(())
            },
        }
    }

    /// Takes in one more event. A refused event changes nothing.
    pub fn apply(&mut self, event: &EventEnvelope) -> (r: Result<(), Error>)
        requires
            old(self).wf(),
        ensures
            match step(old(self)@, *event) {
                Ok(s) => r is Ok && final(self)@ == s,
                Err(m) => r matches Err(e) && e@ == m && final(self)@ == old(self)@,
            },
            final(self).wf(),
    {
        if event.seq == 1 {
            return Ok(());
        }
        if event.seq <= self.meta.last_seq {
            return Err(fail("session sequence must increase"));
        }
        match self.act(event) {
            Err(e) => Err(e),
            Ok(()) => {
                self.meta.updated_at = event.timestamp;
                self.meta.last_seq = event.seq;
                proof {
                    assert(self@ =~= step(old(self)@, *event)->Ok_0);
                    every_event_keeps_coherence(old(self)@, *event);
                    lemma_step_keeps_tree(old(self)@, *event);
                }
                Ok(())
            },
        }
    }
}

/// No event changes the tree by itself.
pub proof fn lemma_step_keeps_tree(s: ProjectionView, e: EventEnvelope)
    requires
        step(s, e) is Ok,
    ensures
        step(s, e)->Ok_0.tree == s.tree,
        step(s, e)->Ok_0.meta.session_id == s.meta.session_id,
{
}

/// The identifiers of all calls that the messages ask for.
fn asked(messages: &Vec<StoredMessage>) -> (r: Vec<String>)
    ensures
        texts(r@) == asked_ids(stored_views(messages@)),
{
    let ghost views = stored_views(messages@);
    let mut out: Vec<String> = Vec::new();
    let mut i: usize = 0;
    assert(texts(out@) =~= asked_ids(views.take(0)));
    while i < messages.len()
        invariant
            i <= messages.len(),
            views == stored_views(messages@),
            texts(out@) == asked_ids(views.take(i as int)),
        decreases messages.len() - i,
    {
        proof {
            let now = views.take(i + 1);
            assert(now.drop_last() =~= views.take(i as int));
            assert(now.last() == messages@[i as int]@);
        }
        match &messages[i].message.tool_calls {
            Some(calls) => add_ids(&mut out, calls),
            None => {},
        }
        assert(texts(out@) =~= asked_ids(views.take(i + 1)));
        i += 1;
    }
    assert(views.take(i as int) =~= views);
    out
}

/// Adds the identifiers of a group of calls.
fn add_ids(out: &mut Vec<String>, calls: &Vec<ToolCall>)
    ensures
        texts(final(out)@) == texts(old(out)@) + call_ids(call_views(calls@)),
{
    let ghost before = texts(out@);
    let ghost ids = call_ids(call_views(calls@));
    let mut i: usize = 0;
    assert(before =~= before + ids.take(0));
    while i < calls.len()
        invariant
            i <= calls.len(),
            ids == call_ids(call_views(calls@)),
            texts(out@) == before + ids.take(i as int),
        decreases calls.len() - i,
    {
        let id = calls[i].id.clone();
        proof {
            lemma_texts_push(out@, id);
            assert(ids[i as int] == calls@[i as int]@.id);
            assert(ids.take(i + 1) =~= ids.take(i as int).push(id@));
        }
        out.push(id);
        i += 1;
        assert(texts(out@) =~= before + ids.take(i as int));
    }
    assert(ids.take(i as int) =~= ids);
}

/// The identifiers of a group of calls, or what is wrong with the group.
fn declared(known: &Vec<String>, calls: &Vec<ToolCall>) -> (r: Result<Vec<String>, Error>)
    ensures
        match call_fault(texts(known@), call_views(calls@)) {
            None => r matches Ok(ids) && texts(ids@).to_set() == call_ids(
                call_views(calls@),
            ).to_set() && texts(ids@).no_duplicates(),
            Some(m) => r matches Err(e) && e@ == m,
        },
{
    let ghost views = call_views(calls@);
    let mut ids: Vec<String> = Vec::new();
    let mut i: usize = 0;
    while i < calls.len()
        invariant
            i <= calls.len(),
            views == call_views(calls@),
            call_fault(texts(known@), views.take(i as int)) is None,
            texts(ids@) == call_ids(views.take(i as int)),
            texts(ids@).no_duplicates(),
        decreases calls.len() - i,
    {
        let call = &calls[i];
        let ghost now = views.take(i + 1);
        proof {
            assert(now.drop_last() =~= views.take(i as int));
            assert(now.last() == call@);
            if call_fault(texts(known@), now) is Some {
                lemma_fault_stands(texts(known@), views, i + 1);
            }
            lemma_contains_either(texts(known@), texts(ids@), call.id@);
        }
        if is_blank(call.id.as_str()) {
            return Err(fail("assistant tool call is missing ID"));
        }
        if position(known, call.id.as_str()).is_some() || position(
            &ids,
            call.id.as_str(),
        ).is_some() {
            return Err(fail_with("duplicate tool call ID ", call.id.as_str()));
        }
        proof {
            lemma_texts_push(ids@, call.id);
            assert(call_ids(now) =~= call_ids(views.take(i as int)).push(call.id@));
        }
        ids.push(call.id.clone());
        i += 1;
    }
    assert(views.take(i as int) =~= views);
    Ok(ids)
}

/// What two lists hold is what the one or the other holds.
proof fn lemma_contains_either(a: Seq<Seq<char>>, b: Seq<Seq<char>>, x: Seq<char>)
    ensures
        (a + b).contains(x) <==> a.contains(x) || b.contains(x),
{
    let all = a + b;
    if a.contains(x) {
        let i = choose|i: int| 0 <= i < a.len() && a[i] == x;
        assert(all[i] == x);
    }
    if b.contains(x) {
        let i = choose|i: int| 0 <= i < b.len() && b[i] == x;
        assert(all[a.len() + i] == x);
    }
    if all.contains(x) {
        let i = choose|i: int| 0 <= i < all.len() && all[i] == x;
        if i < a.len() {
            assert(a[i] == x);
        } else {
            assert(b[i - a.len()] == x);
        }
    }
}

/// The first fault of a group of calls is the group's fault.
proof fn lemma_fault_stands(known: Seq<Seq<char>>, calls: Seq<CallView>, k: int)
    requires
        0 <= k <= calls.len(),
        call_fault(known, calls.take(k)) is Some,
    ensures
        call_fault(known, calls) == call_fault(known, calls.take(k)),
    decreases calls.len(),
{
    if k < calls.len() {
        assert(calls.drop_last().take(k) =~= calls.take(k));
        lemma_fault_stands(known, calls.drop_last(), k);
    } else {
        assert(calls.take(k) =~= calls);
    }
}

impl Clone for StoredMessage {
    fn clone(&self) -> (r: Self)
        ensures
            r@ == self@,
    {
        StoredMessage { seq: self.seq, message: self.message.clone() }
    }
}

/// A copy of a list of stored messages.
fn copy_stored(messages: &Vec<StoredMessage>) -> (r: Vec<StoredMessage>)
    ensures
        stored_views(r@) == stored_views(messages@),
{
    let ghost views = stored_views(messages@);
    let mut out: Vec<StoredMessage> = Vec::new();
    let mut i: usize = 0;
    while i < messages.len()
        invariant
            i <= messages.len(),
            views == stored_views(messages@),
            stored_views(out@) == views.take(i as int),
        decreases messages.len() - i,
    {
        let copy = messages[i].clone();
        proof {
            lemma_stored_push(out@, copy);
        }
        out.push(copy);
        i += 1;
        assert(views.take(i as int) =~= views.take(i - 1).push(views[i - 1]));
    }
    assert(views.take(i as int) =~= views);
    out
}

impl Clone for CompletedTurn {
    fn clone(&self) -> (r: Self)
        ensures
            r@ == self@,
    {
        CompletedTurn {
            id: self.id,
            started_seq: self.started_seq,
            completed_seq: self.completed_seq,
            messages: copy_stored(&self.messages),
        }
    }
}

/// One message more at the end of the estimate.
proof fn lemma_tokens_push(messages: Seq<MessageView>, m: MessageView)
    ensures
        total_tokens(messages.push(m)) == total_tokens(messages) + message_tokens(m),
{
    assert(messages.push(m).drop_last() =~= messages);
}

/// About how many tokens a message is.
pub fn estimate_message_tokens(message: &ChatMessage) -> (r: usize)
    ensures
        r == held(message_tokens(message@)),
{
    let content: u128 = message.content.as_str().unicode_len() as u128;
    let reasoning: u128 = match &message.reasoning_content {
        Some(text) => text.as_str().unicode_len() as u128,
        None => 0,
    };
    let call_id: u128 = match &message.tool_call_id {
        Some(text) => text.as_str().unicode_len() as u128,
        None => 0,
    };
    let calls: u128 = match &message.tool_calls {
        Some(calls) => encode_calls(calls).as_str().unicode_len() as u128,
        None => 0,
    };
    let characters: u128 = content + reasoning + call_id + calls;
    if characters == 0 {
        1
    } else {
        let quarter: u128 = (characters + 3) / 4;
        assert(quarter <= usize::MAX);
        quarter as usize
    }
}

impl Projection {
    /// The projection of a log: of the events on its active path.
    pub fn replay(events: &[EventEnvelope]) -> (r: Result<Self, Error>)
        ensures
            match projection_of(events@) {
                Ok(s) => r matches Ok(p) && p@ == s && p.wf(),
                Err(m) => r matches Err(e) && e@ == m,
            },
    {
        let tree = match SessionTree::replay(events) {
            Ok(tree) => tree,
            Err(e) => {
                return Err(e);
            },
        };
        proof {
            lemma_tree_of_nonempty(events@);
        }
        let path = tree.active_path();
        let mut projection = match Self::from_first(&events[0]) {
            Ok(projection) => projection,
            Err(e) => {
                proof {
                    lemma_fold_refusal(events@, path@, 1, events@.len());
                }
                return Err(e);
            },
        };
        let mut i: usize = 1;
        while i < events.len()
            invariant
                1 <= i <= events.len(),
                tree_of(events@) == Ok::<TreeView, Seq<char>>(tree@),
                rooted(tree@.nodes),
                path@ == active_path_of(tree@),
                projection.wf(),
                replay_fold(events@, path@, i as nat) == Ok::<ProjectionView, Seq<char>>(
                    projection@,
                ),
            decreases events.len() - i,
        {
            let event = &events[i];
            match projection.replay_one(event, (i as u64) + 1, &path) {
                Ok(()) => {},
                Err(e) => {
                    proof {
                        lemma_fold_refusal(events@, path@, (i + 1) as nat, events@.len());
                    }
                    return Err(e);
                },
            }
            i += 1;
        }
        let last = &events[events.len() - 1];
        proof {
            lemma_fold_bounds(events@, path@, events@.len());
        }
        let ghost folded = projection@;
        projection.meta.last_seq = last.seq;
        projection.meta.updated_at = last.timestamp;
        proof {
            lemma_last_seq_grows(folded, projection@);
        }
        projection.set_tree(tree);
        assert(projection@ =~= projection_of(events@)->Ok_0);
        Ok(projection)
    }

    /// Takes in one more event of a log that is read back, if it is on the
    /// active path.
    fn replay_one(&mut self, event: &EventEnvelope, expected: u64, path: &Vec<u64>) -> (r: Result<
        (),
        Error,
    >)
        requires
            old(self).wf(),
        ensures
            ({
                let s = old(self)@;
                let outcome: Result<ProjectionView, Seq<char>> = if event.schema_version
                    != SCHEMA_VERSION {
                    Err("unsupported session schema version "@ + decimal(event.schema_version as nat))
                } else if event.session_id != s.meta.session_id {
                    Err("session ID changed inside log"@)
                } else if event.seq != expected {
                    Err(
                        "session sequence mismatch: expected "@ + decimal(expected as nat)
                            + ", got "@ + decimal(event.seq as nat),
                    )
                } else if path@.contains(event.seq) {
                    step(s, *event)
                } else {
                    Ok(s)
                };
                match outcome {
                    Ok(next) => r is Ok && final(self)@ == next,
                    Err(m) => r matches Err(e) && e@ == m,
                }
            }),
            final(self).wf(),
    {
        if event.schema_version != SCHEMA_VERSION {
            return Err(
                fail_with(
                    "unsupported session schema version ",
                    decimal_of(event.schema_version as u64).as_str(),
                ),
            );
        }
        if event.session_id != self.meta.session_id {
            return Err(fail("session ID changed inside log"));
        }
        if event.seq != expected {
            let mut detail = decimal_of(expected);
            detail.append(", got ");
            let out = fail_about(
                "session sequence mismatch: expected ",
                detail.as_str(),
                decimal_of(event.seq).as_str(),
            );
            assert(out@ =~= "session sequence mismatch: expected "@ + decimal(expected as nat)
                + ", got "@ + decimal(event.seq as nat));
            return Err(out);
        }
        if holds(path, event.seq) {
            self.apply(event)
        } else {
            Ok(())
        }
    }

    /// Makes the projection stand where `tree` stands.
    pub fn set_tree(&mut self, tree: SessionTree)
        requires
            old(self).wf(),
            rooted(tree@.nodes),
        ensures
            final(self)@ == with_tree(old(self)@, tree@),
            final(self).wf(),
    {
        self.meta.active_branch_id = tree.active_branch_id;
        self.meta.active_head_seq = tree.active_head_seq;
        self.meta.branch_count = tree.branches.len();
        self.tree = tree;
        assert(self@ =~= with_tree(old(self)@, tree@));
        assert(coherent(self@));
    }

    /// The session's summary.
    pub fn summary(&self) -> (r: SessionSummary)
        ensures
            r@ == self@.meta,
    {
        self.meta.clone()
    }

    /// The session's tree.
    pub fn tree(&self) -> (r: SessionTree)
        ensures
            r@ == self@.tree,
    {
        self.tree.clone()
    }

    /// The Skills that are switched on, in their order.
    pub fn active_skills(&self) -> (r: Vec<ActiveSkillRecord>)
        ensures
            skill_views(r@) == self@.meta.active_skills,
    {
        copy_skills(&self.meta.active_skills)
    }

    /// The transcript.
    pub fn transcript(&self) -> (r: Transcript)
        ensures
            r@ == self@.transcript,
    {
        self.transcript.clone()
    }

    /// Whether a turn is running.
    pub fn has_active_turn(&self) -> (r: bool)
        ensures
            r == (self@.active is Some),
    {
        self.active.is_some()
    }

    /// The identifier of the running turn.
    pub fn active_turn_id(&self) -> (r: Result<TurnId, Error>)
        ensures
            match self@.active {
                Some(turn) => r == Ok::<TurnId, Error>(turn.id),
                None => r matches Err(e) && e@ == "session has no active turn"@,
            },
    {
        match &self.active {
            Some(turn) => Ok(turn.id),
            None => Err(fail("session has no active turn")),
        }
    }

    /// The input of the latest turn, where that turn ended badly.
    pub fn retry_input(&self) -> (r: Option<String>)
        ensures
            maybe(r) == self@.retry_input,
    {
        self.retry_input.clone()
    }

    /// What the model is sent, and about how many tokens it is.
    pub fn context(&self) -> (r: ModelContext)
        ensures
            message_views(r.messages@) == context_messages(self@),
            r.estimated_tokens == held(total_tokens(context_messages(self@))),
    {
        let mut messages: Vec<ChatMessage> = Vec::new();
        let mut tokens: usize = 0;
        if let Some(summary) = &self.compaction_summary {
            let mut content: String = "Summary of earlier session context:\n".to_owned();
            content.append(summary.as_str());
            let message = ChatMessage::plain("system", content);
            tokens = estimate_message_tokens(&message);
            messages.push(message);
            proof {
                lemma_tokens_push(Seq::empty(), message@);
                assert(message_views(messages@) =~= Seq::<MessageView>::empty().push(message@));
            }
        }
        proof {
            assert(message_views(messages@) =~= summary_messages(self@.compaction_summary));
        }
        let tokens = add_messages(&self.committed, &mut messages, tokens);
        let tokens = match &self.active {
            Some(turn) => add_messages(&turn.messages, &mut messages, tokens),
            None => tokens,
        };
        assert(message_views(messages@) =~= context_messages(self@));
        ModelContext { messages, estimated_tokens: tokens }
    }

    /// What a compaction would summarize: every completed turn but the latest
    /// few.
    pub fn compaction_plan(&self) -> (r: Option<CompactionPlan>)
        ensures
            r is Some <==> compactable(self@),
            r matches Some(plan) ==> {
                let count = self@.completed.len() - KEEP_RECENT_TURNS;
                let through = self@.completed[count - 1];
                &&& plan.source@ == plan_source(
                    self@.compaction_summary,
                    self@.completed.take(count),
                )
                &&& plan.through_seq == through.completed_seq
                &&& plan.through_turn_id == through.id
                &&& plan.keep_from_turn_id == Some(self@.completed[count].id)
                &&& plan.source_token_estimate == quarter(plan.source@.len())
            },
    {
        if self.active.is_some() || self.completed.len() <= KEEP_RECENT_TURNS {
            return None;
        }
        let count: usize = self.completed.len() - KEEP_RECENT_TURNS;
        let mut source = String::new();
        if let Some(summary) = &self.compaction_summary {
            source.append("Previous summary:\n");
            source.append(summary.as_str());
            source.append("\n\nNew completed turns:\n");
        }
        let ghost head = source@;
        let ghost turns = self@.completed;
        let mut i: usize = 0;
        assert(head + turns_text(turns.take(0)) =~= head);
        while i < count
            invariant
                i <= count <= self.completed.len(),
                turns == self@.completed,
                turns.len() == self.completed.len(),
                source@ == head + turns_text(turns.take(i as int)),
            decreases count - i,
        {
            let turn = &self.completed[i];
            source.append("\nTurn ");
            source.append(turn.id.to_text().as_str());
            source.append(" (seq ");
            source.append(decimal_of(turn.started_seq).as_str());
            source.append("-");
            source.append(decimal_of(turn.completed_seq).as_str());
            source.append("):\n");
            source.append(describe_messages(&turn.messages).as_str());
            i += 1;
            proof {
                let now = turns.take(i as int);
                assert(now.drop_last() =~= turns.take(i - 1));
                assert(now.last() == turn@);
                assert(source@ =~= head + turns_text(now));
            }
        }
        let through = &self.completed[count - 1];
        assert(turns[count - 1] == through@);
        assert(turns[count as int] == self.completed@[count as int]@);
        let length: usize = source.as_str().unicode_len();
        let estimate: usize = if length == 0 {
            1
        } else {
            length / 4 + (if length % 4 == 0 {
                0
            } else {
                1
            })
        };
        assert(source@ =~= plan_source(self@.compaction_summary, turns.take(count as int)));
        Some(
            CompactionPlan {
                source,
                through_seq: through.completed_seq,
                through_turn_id: through.id,
                keep_from_turn_id: Some(self.completed[count].id),
                source_token_estimate: estimate,
            },
        )
    }
}

impl Clone for ActiveTurn {
    fn clone(&self) -> (r: Self)
        ensures
            r@ == self@,
            r.unresolved@ == self.unresolved@,
            r.started@ == self.started@,
    {
        ActiveTurn {
            id: self.id,
            started_seq: self.started_seq,
            input: self.input.clone(),
            messages: copy_stored(&self.messages),
            unresolved: copy_list(&self.unresolved),
            started: copy_list(&self.started),
        }
    }
}

impl Clone for Projection {
    fn clone(&self) -> (r: Self)
        ensures
            r@ == self@,
            self.wf() ==> r.wf(),
    {
        let ghost turns = self@.completed;
        let mut completed: Vec<CompletedTurn> = Vec::new();
        let mut i: usize = 0;
        while i < self.completed.len()
            invariant
                i <= self.completed.len(),
                turns == self@.completed,
                turn_views(completed@) == turns.take(i as int),
            decreases self.completed.len() - i,
        {
            let copy = self.completed[i].clone();
            assert(turn_views(completed@.push(copy)) =~= turn_views(completed@).push(copy@));
            completed.push(copy);
            i += 1;
            assert(turns.take(i as int) =~= turns.take(i - 1).push(turns[i - 1]));
        }
        assert(turns.take(i as int) =~= turns);
        let out = Projection {
            meta: self.meta.clone(),
            committed: copy_stored(&self.committed),
            completed,
            active: match &self.active {
                Some(turn) => Some(turn.clone()),
                None => None,
            },
            transcript: self.transcript.clone(),
            compaction_summary: self.compaction_summary.clone(),
            retry_input: self.retry_input.clone(),
            tree: self.tree.clone(),
        };
        assert(out@ =~= self@);
        out
    }
}

/// Whether a path holds a place.
pub(crate) fn holds(path: &Vec<u64>, seq: u64) -> (r: bool)
    ensures
        r == path@.contains(seq),
{
    let mut i: usize = 0;
    while i < path.len()
        invariant
            i <= path.len(),
            forall|j: int| 0 <= j < i ==> path@[j] != seq,
        decreases path.len() - i,
    {
        if path[i] == seq {
            return true;
        }
        i += 1;
    }
    false
}

/// Puts the messages of a turn behind `out`, and their tokens on top of
/// `tokens`.
fn add_messages(stored: &Vec<StoredMessage>, out: &mut Vec<ChatMessage>, tokens: usize) -> (r:
    usize)
    requires
        tokens == held(total_tokens(message_views(old(out)@))),
    ensures
        message_views(final(out)@) == message_views(old(out)@) + bare(stored_views(stored@)),
        r == held(total_tokens(message_views(final(out)@))),
{
    let ghost before = message_views(out@);
    let ghost added = bare(stored_views(stored@));
    let mut sum: usize = tokens;
    let mut i: usize = 0;
    assert(before + added.take(0) =~= before);
    while i < stored.len()
        invariant
            i <= stored.len(),
            added == bare(stored_views(stored@)),
            message_views(out@) == before + added.take(i as int),
            sum == held(total_tokens(message_views(out@))),
        decreases stored.len() - i,
    {
        let message = stored[i].message.clone();
        let more = estimate_message_tokens(&message);
        proof {
            lemma_tokens_push(message_views(out@), message@);
            assert(message_views(out@.push(message)) =~= message_views(out@).push(message@));
        }
        sum = sum.saturating_add(more);
        out.push(message);
        i += 1;
        assert(before + added.take(i as int) =~= (before + added.take(i - 1)).push(added[i - 1]));
    }
    assert(added.take(i as int) =~= added);
    sum
}

/// Messages as the summarizing model reads them.
fn describe_messages(messages: &Vec<StoredMessage>) -> (r: String)
    ensures
        r@ == messages_text(stored_views(messages@)),
{
    let ghost views = stored_views(messages@);
    let mut out = String::new();
    let mut i: usize = 0;
    while i < messages.len()
        invariant
            i <= messages.len(),
            views == stored_views(messages@),
            out@ == messages_text(views.take(i as int)),
        decreases messages.len() - i,
    {
        let message = &messages[i].message;
        out.append(message.role.as_str());
        out.append(": ");
        out.append(message.content.as_str());
        if let Some(calls) = &message.tool_calls {
            out.append("\ntool_calls: ");
            out.append(encode_calls(calls).as_str());
        }
        out.push('\n');
        i += 1;
        proof {
            let now = views.take(i as int);
            assert(now.drop_last() =~= views.take(i - 1));
            assert(now.last().message == message@);
            assert(out@ =~= messages_text(now));
        }
    }
    assert(views.take(i as int) =~= views);
    out
}

proof fn lemma_tree_of_nonempty(events: Seq<EventEnvelope>)
    requires
        tree_of(events) is Ok,
    ensures
        events.len() > 0,
{
}

/// Once a prefix of the log is refused, the log is refused for the same reason.
proof fn lemma_fold_refusal(events: Seq<EventEnvelope>, path: Seq<u64>, k: nat, n: nat)
    requires
        1 <= k <= n,
        replay_fold(events, path, k) is Err,
    ensures
        replay_fold(events, path, n) == replay_fold(events, path, k),
    decreases n,
{
    if k < n {
        lemma_fold_refusal(events, path, k, (n - 1) as nat);
    }
}

/// A log that is accepted numbers its events from one on.
pub proof fn lemma_fold_bounds(events: Seq<EventEnvelope>, path: Seq<u64>, n: nat)
    requires
        1 <= n <= events.len(),
        replay_fold(events, path, n) is Ok,
    ensures
        events[n - 1].seq == n,
        replay_fold(events, path, n)->Ok_0.meta.last_seq <= n,
    decreases n,
{
    if n > 1 {
        lemma_fold_bounds(events, path, (n - 1) as nat);
    }
}

/// Moving the last place forward keeps a projection coherent.
proof fn lemma_last_seq_grows(s: ProjectionView, t: ProjectionView)
    requires
        coherent(s),
        t.meta.last_seq >= s.meta.last_seq,
        t == (ProjectionView {
            meta: SummaryView {
                last_seq: t.meta.last_seq,
                updated_at: t.meta.updated_at,
                ..s.meta
            },
            ..s
        }),
    ensures
        coherent(t),
{
}

} // verus!
