//! What each event of a session leaves: in what the model is sent, in what people
//! read, and in the summary.
use crate::llm::protocol::{MessageView, ToolCall};
use crate::seqs::{lemma_filter_picks, picked};
use crate::session::event::{EventEnvelope, SessionEvent};
use crate::session::model::{ItemView, SessionStatus, SkillView, SummaryView, TranscriptKind};
use crate::session::projection::{
    bare, context_messages, last_item, placed, skill_names, step, summary_messages,
    ProjectionView, StoredView,
};
use vstd::prelude::*;

verus! {

/// A message says what a model answered: its words and its reasoning, character for
/// character, and its calls, one for one.
pub open spec fn says_answer(
    m: MessageView,
    content: Seq<char>,
    reasoning: Option<Seq<char>>,
    calls: Seq<ToolCall>,
) -> bool {
    &&& m.role == "assistant"@
    &&& m.content == content
    &&& m.reasoning_content == reasoning
    &&& m.tool_call_id is None
    &&& m.tool_calls is None <==> calls.len() == 0
    &&& m.tool_calls matches Some(sent) ==> {
        &&& sent.len() == calls.len()
        &&& forall|i: int|
            0 <= i < calls.len() ==> {
                &&& (#[trigger] sent[i]).id == calls[i].id@
                &&& sent[i].call_type == calls[i].call_type@
                &&& sent[i].name == calls[i].function.name@
                &&& sent[i].arguments == calls[i].function.arguments@
            }
    }
}

/// A message holds a role and a text, and nothing else.
pub open spec fn says_only(m: MessageView, role: Seq<char>, content: Seq<char>) -> bool {
    &&& m.role == role
    &&& m.content == content
    &&& m.reasoning_content is None
    &&& m.tool_call_id is None
    &&& m.tool_calls is None
}

/// A message is the result of a call.
pub open spec fn says_result(m: MessageView, call_id: Seq<char>, result: Seq<char>) -> bool {
    &&& m.role == "tool"@
    &&& m.content == result
    &&& m.reasoning_content is None
    &&& m.tool_call_id == Some(call_id)
    &&& m.tool_calls is None
}

/// An answer that is accepted is sent from then on: after everything that was sent
/// before comes exactly one message, with the words, the reasoning and the calls
/// of the answer, whether or not it asks for tools.
pub proof fn an_answer_is_sent_as_it_was_given(s: ProjectionView, e: EventEnvelope)
    requires
        e.seq != 1,
        e.event is AssistantCompleted,
        step(s, e) is Ok,
    ensures
        ({
            let a = e.event->AssistantCompleted_0;
            let sent = context_messages(step(s, e)->Ok_0);
            &&& sent.len() == context_messages(s).len() + 1
            &&& sent.drop_last() == context_messages(s)
            &&& says_answer(
                sent.last(),
                a.content@,
                match a.reasoning_content {
                    Some(text) => Some(text@),
                    None => None,
                },
                a.tool_calls@,
            )
        }),
{
    let n = step(s, e)->Ok_0;
    lemma_one_more(s.active->0.messages, n.active->0.messages.last());
    assert(context_messages(n).drop_last() =~= context_messages(s));
}

/// What the user asks is sent from then on, after everything that was sent before,
/// character for character, and is what a new try of the turn would ask.
pub proof fn a_question_is_sent_as_it_was_put(s: ProjectionView, e: EventEnvelope)
    requires
        e.seq != 1,
        e.event is TurnStarted,
        step(s, e) is Ok,
    ensures
        ({
            let asked = e.event->TurnStarted_0.content@;
            let n = step(s, e)->Ok_0;
            let sent = context_messages(n);
            &&& sent.len() == context_messages(s).len() + 1
            &&& sent.drop_last() == context_messages(s)
            &&& says_only(sent.last(), "user"@, asked)
            &&& n.active matches Some(turn) && turn.input == asked && Some(turn.id) == e.turn_id
                && turn.started_seq == e.seq
            &&& n.meta.status == SessionStatus::Running
        }),
{
    let n = step(s, e)->Ok_0;
    lemma_one_more(Seq::empty(), n.active->0.messages.last());
    assert(n.active->0.messages =~= Seq::<StoredView>::empty().push(
        n.active->0.messages.last(),
    ));
    assert(context_messages(n).drop_last() =~= context_messages(s));
}

/// The result of a call is sent from then on, after everything that was sent before,
/// character for character and under the identifier of its call.
pub proof fn a_result_is_sent_as_it_was_given(s: ProjectionView, e: EventEnvelope)
    requires
        e.seq != 1,
        e.event is ToolFinished,
        step(s, e) is Ok,
    ensures
        ({
            let r = e.event->ToolFinished_0;
            let sent = context_messages(step(s, e)->Ok_0);
            &&& sent.len() == context_messages(s).len() + 1
            &&& sent.drop_last() == context_messages(s)
            &&& says_result(sent.last(), r.call_id@, r.result@)
        }),
{
    let n = step(s, e)->Ok_0;
    lemma_one_more(s.active->0.messages, n.active->0.messages.last());
    assert(context_messages(n).drop_last() =~= context_messages(s));
}

/// The summary of another branch is sent from then on, after everything that was sent
/// before; all of it is in the message.
pub proof fn the_words_of_a_branch_are_sent(s: ProjectionView, e: EventEnvelope)
    requires
        e.seq != 1,
        e.event is BranchSummary,
        step(s, e) is Ok,
    ensures
        ({
            let summary = e.event->BranchSummary_summary@;
            let sent = context_messages(step(s, e)->Ok_0);
            &&& sent.len() == context_messages(s).len() + 1
            &&& sent.drop_last() == context_messages(s)
            &&& says_only(
                sent.last(),
                "system"@,
                "Summary from another branch:\n"@ + summary,
            )
        }),
{
    let n = step(s, e)->Ok_0;
    lemma_one_more(s.committed, n.committed.last());
    assert(context_messages(n).drop_last() =~= context_messages(s));
}

/// The event says nothing to the model and takes nothing back.
pub open spec fn is_silent(event: SessionEvent) -> bool {
    event is RuntimeStarted || event is SkillActivated || event is SkillDeactivated
        || event is TitleChanged || event is ModelChanged || event is ToolStarted
        || event is TurnCompleted || event is SessionForked || event is BranchCreated
        || event is BranchSelected || event is SessionArchived
}

/// A change of title, of model or of Skills, the start of a call, the end of a turn
/// that went well, and whatever concerns branches and forks leave what the model is
/// sent as it is.
pub proof fn a_silent_event_sends_nothing(s: ProjectionView, e: EventEnvelope)
    requires
        step(s, e) is Ok,
        is_silent(e.event),
    ensures
        context_messages(step(s, e)->Ok_0) == context_messages(s),
{
    if e.seq != 1 {
        let n = step(s, e)->Ok_0;
        if e.event is TurnCompleted {
            assert(bare(n.committed) =~= bare(s.committed) + bare(s.active->0.messages));
        }
        assert(context_messages(n) =~= context_messages(s));
    }
}

/// A compaction puts one message with its whole summary before the messages that
/// stand behind the boundary that it names: all of them, in their order, and none
/// other.
pub proof fn a_compaction_sends_its_summary_first(s: ProjectionView, e: EventEnvelope)
    requires
        e.seq != 1,
        e.event is ContextCompacted,
        step(s, e) is Ok,
    ensures
        ({
            let c = e.event->ContextCompacted_0;
            let sent = context_messages(step(s, e)->Ok_0);
            &&& sent.len() > 0
            &&& says_only(
                sent.first(),
                "system"@,
                "Summary of earlier session context:\n"@ + c.summary@,
            )
            &&& exists|places: Seq<int>|
                {
                    &&& #[trigger] picked(bare(s.committed), sent.drop_first(), places)
                    &&& forall|k: int|
                        0 <= k < s.committed.len() && s.committed[k].seq > c.through_seq
                            <==> #[trigger] places.contains(k)
                }
        }),
{
    let c = e.event->ContextCompacted_0;
    let n = step(s, e)->Ok_0;
    let sent = context_messages(n);
    let first = summary_messages(n.compaction_summary);
    assert(first.len() == 1);
    assert(sent =~= first + bare(n.committed));
    assert(sent.drop_first() =~= bare(n.committed));
    let places = lemma_filter_picks(s.committed, |m: StoredView| m.seq > c.through_seq);
    assert(picked(bare(s.committed), sent.drop_first(), places));
}

proof fn lemma_one_more(messages: Seq<StoredView>, m: StoredView)
    ensures
        bare(messages.push(m)) == bare(messages).push(m.message),
{
    assert(bare(messages.push(m)) =~= bare(messages).push(m.message));
}

/// The event says something to the model.
pub open spec fn is_talk(event: SessionEvent) -> bool {
    event is TurnStarted || event is AssistantCompleted || event is ToolFinished
        || event is BranchSummary
}

/// A message says what an event said.
pub open spec fn says(m: MessageView, event: SessionEvent) -> bool {
    match event {
        SessionEvent::TurnStarted(user) => says_only(m, "user"@, user.content@),
        SessionEvent::AssistantCompleted(a) => says_answer(
            m,
            a.content@,
            match a.reasoning_content {
                Some(text) => Some(text@),
                None => None,
            },
            a.tool_calls@,
        ),
        SessionEvent::ToolFinished(r) => says_result(m, r.call_id@, r.result@),
        SessionEvent::BranchSummary { summary, .. } => says_only(
            m,
            "system"@,
            "Summary from another branch:\n"@ + summary@,
        ),
        _ => false,
    }
}

/// A session after some events.
pub open spec fn after(s: ProjectionView, events: Seq<EventEnvelope>) -> Result<
    ProjectionView,
    Seq<char>,
>
    decreases events.len(),
{
    if events.len() == 0 {
        Ok(s)
    } else {
        match after(s, events.drop_last()) {
            Err(m) => Err(m),
            Ok(n) => step(n, events.last()),
        }
    }
}

/// The events that say something to the model, in order.
pub open spec fn talk(events: Seq<EventEnvelope>) -> Seq<EventEnvelope>
    decreases events.len(),
{
    if events.len() == 0 {
        Seq::empty()
    } else if is_talk(events.last().event) {
        talk(events.drop_last()).push(events.last())
    } else {
        talk(events.drop_last())
    }
}

/// Over any run of accepted events that takes nothing back, what the model is sent
/// is what it was sent before and then, in order, one message for each event that
/// said something, which says just that.
pub proof fn what_is_sent_is_what_was_said(s: ProjectionView, events: Seq<EventEnvelope>)
    requires
        after(s, events) is Ok,
        forall|i: int|
            0 <= i < events.len() ==> (#[trigger] events[i]).seq != 1 && (is_talk(events[i].event)
                || is_silent(events[i].event)),
    ensures
        ({
            let sent = context_messages(after(s, events)->Ok_0);
            let before = context_messages(s);
            &&& sent.len() == before.len() + talk(events).len()
            &&& sent.take(before.len() as int) == before
            &&& forall|i: int|
                0 <= i < talk(events).len() ==> says(
                    sent[before.len() + i],
                    (#[trigger] talk(events)[i]).event,
                )
        }),
    decreases events.len(),
{
    let before = context_messages(s);
    if events.len() == 0 {
        assert(before.take(before.len() as int) =~= before);
    } else {
        let e = events.last();
        let m = after(s, events.drop_last())->Ok_0;
        assert(events[events.len() - 1] == e);
        assert forall|i: int| 0 <= i < events.drop_last().len() implies (
        #[trigger] events.drop_last()[i]).seq != 1 && (is_talk(events.drop_last()[i].event)
            || is_silent(events.drop_last()[i].event)) by {
            assert(events.drop_last()[i] == events[i]);
        }
        what_is_sent_is_what_was_said(s, events.drop_last());
        let had = context_messages(m);
        let sent = context_messages(step(m, e)->Ok_0);
        if is_talk(e.event) {
            if e.event is TurnStarted {
                a_question_is_sent_as_it_was_put(m, e);
            } else if e.event is AssistantCompleted {
                an_answer_is_sent_as_it_was_given(m, e);
            } else if e.event is ToolFinished {
                a_result_is_sent_as_it_was_given(m, e);
            } else {
                the_words_of_a_branch_are_sent(m, e);
            }
            assert(sent.drop_last() == had);
            assert(sent.take(before.len() as int) =~= had.take(before.len() as int));
            assert forall|i: int| 0 <= i < talk(events).len() implies says(
                sent[before.len() + i],
                (#[trigger] talk(events)[i]).event,
            ) by {
                if i < talk(events.drop_last()).len() {
                    assert(talk(events)[i] == talk(events.drop_last())[i]);
                    assert(sent[before.len() + i] == sent.drop_last()[before.len() + i]);
                }
            }
        } else {
            a_silent_event_sends_nothing(m, e);
        }
    }
}

/// The transcript has one item more, and all that it had before.
pub open spec fn one_item_more(s: ProjectionView, n: ProjectionView) -> bool {
    &&& n.transcript.len() == s.transcript.len() + 1
    &&& n.transcript.drop_last() == s.transcript
}

/// What the user asks and what the model answers can be read as it was said; an
/// answer without words is not shown.
pub proof fn what_was_said_can_be_read(s: ProjectionView, e: EventEnvelope)
    requires
        e.seq != 1,
        step(s, e) is Ok,
    ensures
        ({
            let n = step(s, e)->Ok_0;
            let shown = n.transcript.last();
            &&& e.event matches SessionEvent::TurnStarted(user) ==> {
                &&& one_item_more(s, n)
                &&& shown.kind == TranscriptKind::User
                &&& shown.content == user.content@
                &&& shown.id == user.message_id
                &&& shown.turn_id == e.turn_id
                &&& !shown.interrupted
            }
            &&& e.event matches SessionEvent::AssistantCompleted(a) ==> {
                if a.content@.len() == 0 {
                    n.transcript == s.transcript
                } else {
                    &&& one_item_more(s, n)
                    &&& shown.kind == TranscriptKind::Agent
                    &&& shown.content == a.content@
                    &&& shown.id == a.message_id
                    &&& shown.turn_id == e.turn_id
                    &&& !shown.interrupted
                }
            }
        }),
{
    let n = step(s, e)->Ok_0;
    if n.transcript.len() > 0 && n.transcript != s.transcript {
        assert(n.transcript.drop_last() =~= s.transcript || !(e.event is TurnStarted
            || e.event is AssistantCompleted));
    }
}

/// A call that begins is shown under its identifier, with its name first and its
/// arguments last.
pub proof fn a_call_can_be_read(s: ProjectionView, e: EventEnvelope)
    requires
        e.seq != 1,
        e.event is ToolStarted,
        step(s, e) is Ok,
    ensures
        ({
            let c = e.event->ToolStarted_0;
            let n = step(s, e)->Ok_0;
            let shown = n.transcript.last();
            &&& one_item_more(s, n)
            &&& shown.kind == TranscriptKind::Tool
            &&& shown.tool_call_id == Some(c.call_id@)
            &&& shown.turn_id == e.turn_id
            &&& shown.content == c.name@ + seq![' '] + c.arguments@
            &&& !shown.interrupted
        }),
{
    reveal_strlit(" ");
    let n = step(s, e)->Ok_0;
    assert(" "@ =~= seq![' ']);
    assert(n.transcript.drop_last() =~= s.transcript);
}

/// A call that ended says so in the place where it was shown to begin, with its name
/// first, its whole result last and in between whether it went well; no other item
/// changes.
pub proof fn a_result_can_be_read(s: ProjectionView, e: EventEnvelope, k: int)
    requires
        e.seq != 1,
        e.event is ToolFinished,
        step(s, e) is Ok,
        0 <= k < s.transcript.len(),
        s.transcript[k].tool_call_id == Some(e.event->ToolFinished_0.call_id@),
        forall|i: int|
            k < i < s.transcript.len() ==> (#[trigger] s.transcript[i]).tool_call_id != Some(
                e.event->ToolFinished_0.call_id@,
            ),
    ensures
        ({
            let r = e.event->ToolFinished_0;
            let n = step(s, e)->Ok_0;
            let word = if r.success {
                " completed: "@
            } else {
                " failed: "@
            };
            &&& n.transcript.len() == s.transcript.len()
            &&& n.transcript[k].content == r.name@ + word + r.result@
            &&& n.transcript[k] == (ItemView {
                content: n.transcript[k].content,
                ..s.transcript[k]
            })
            &&& forall|i: int|
                0 <= i < s.transcript.len() && i != k ==> n.transcript[i]
                    == #[trigger] s.transcript[i]
        }),
{
    lemma_last_item_is(s.transcript, e.event->ToolFinished_0.call_id@, k);
}

/// How a turn ended badly can be read: the message of a failure, the reason of the
/// others at the end of a line, and before it what the model had said so far, where
/// that was kept. All of it is marked as interrupted, and the user's question is
/// kept for a new try.
pub proof fn a_bad_ending_can_be_read(s: ProjectionView, e: EventEnvelope)
    requires
        e.seq != 1,
        e.event is TurnFailed || e.event is TurnCancelled || e.event is TurnInterrupted,
        step(s, e) is Ok,
    ensures
        ({
            let n = step(s, e)->Ok_0;
            let shown = n.transcript.last();
            &&& n.transcript.len() > s.transcript.len()
            &&& shown.interrupted
            &&& shown.turn_id == e.turn_id
            &&& n.retry_input == Some(s.active->0.input)
            &&& match e.event {
                SessionEvent::TurnFailed(failure) => {
                    &&& one_item_more(s, n)
                    &&& shown.kind == TranscriptKind::Error
                    &&& shown.content == failure.message@
                    &&& n.meta.status == SessionStatus::Idle
                },
                SessionEvent::TurnCancelled { reason } => {
                    &&& one_item_more(s, n)
                    &&& shown.kind == TranscriptKind::System
                    &&& shown.content == "Turn cancelled: "@ + reason@
                    &&& n.meta.status == SessionStatus::Idle
                },
                SessionEvent::TurnInterrupted { reason, partial_output } => {
                    &&& shown.kind == TranscriptKind::System
                    &&& shown.content == "Turn interrupted: "@ + reason@
                    &&& n.meta.status == SessionStatus::Interrupted
                    &&& match partial_output {
                        None => one_item_more(s, n),
                        Some(text) => {
                            let part = n.transcript[s.transcript.len() as int];
                            &&& n.transcript.len() == s.transcript.len() + 2
                            &&& n.transcript.take(s.transcript.len() as int) == s.transcript
                            &&& part.kind == TranscriptKind::Agent
                            &&& part.content == text@
                            &&& part.interrupted
                            &&& part.turn_id == e.turn_id
                        },
                    }
                },
                _ => false,
            }
        }),
{
    let n = step(s, e)->Ok_0;
    match e.event {
        SessionEvent::TurnInterrupted { reason, partial_output: Some(_) } => {
            assert(n.transcript.take(s.transcript.len() as int) =~= s.transcript);
        },
        _ => {
            assert(n.transcript.drop_last() =~= s.transcript);
        },
    }
}

/// A turn that ended well is kept whole: all messages that it had while it ran, its
/// identifier, where it began and where it ended.
pub proof fn a_completed_turn_is_kept_whole(s: ProjectionView, e: EventEnvelope)
    requires
        e.seq != 1,
        e.event is TurnCompleted,
        step(s, e) is Ok,
    ensures
        ({
            let n = step(s, e)->Ok_0;
            let turn = s.active->0;
            let kept = n.completed.last();
            &&& n.completed.len() == s.completed.len() + 1
            &&& n.completed.drop_last() == s.completed
            &&& kept.id == turn.id
            &&& Some(kept.id) == e.turn_id
            &&& kept.started_seq == turn.started_seq
            &&& kept.completed_seq == e.seq
            &&& kept.messages == turn.messages
            &&& n.committed.take(s.committed.len() as int) == s.committed
            &&& n.committed.skip(s.committed.len() as int) == turn.messages
            &&& n.meta.status == SessionStatus::Idle
            &&& s.meta.completed_turns < usize::MAX ==> n.meta.completed_turns
                == s.meta.completed_turns + 1
            &&& n.retry_input is None
        }),
{
    let n = step(s, e)->Ok_0;
    let turn = s.active->0;
    assert(n.completed.drop_last() =~= s.completed);
    assert(n.committed.take(s.committed.len() as int) =~= s.committed);
    assert(n.committed.skip(s.committed.len() as int) =~= turn.messages);
}

/// The summaries are the same but for what every event changes.
pub open spec fn same_but_stamp(a: SummaryView, b: SummaryView) -> bool {
    a == (SummaryView { updated_at: a.updated_at, last_seq: a.last_seq, ..b })
}

/// The summary follows the log: it has the place and the time of the last event; a
/// new title, model or parent is the one that the event names, an archived session
/// is marked so, and none of these events changes anything else in it.
pub proof fn the_summary_follows_the_log(s: ProjectionView, e: EventEnvelope)
    requires
        e.seq != 1,
        step(s, e) is Ok,
    ensures
        ({
            let n = step(s, e)->Ok_0;
            &&& e.seq > s.meta.last_seq
            &&& n.meta.last_seq == e.seq
            &&& n.meta.updated_at == e.timestamp
            &&& n.meta.session_id == s.meta.session_id
            &&& n.meta.workspace == s.meta.workspace
            &&& n.meta.created_at == s.meta.created_at
            &&& !(e.event is TitleChanged) ==> n.meta.title == s.meta.title
            &&& !(e.event is ModelChanged) ==> n.meta.model == s.meta.model && n.meta.model_id
                == s.meta.model_id
            &&& !(e.event is SessionForked) ==> n.meta.parent_session_id
                == s.meta.parent_session_id
            &&& !(e.event is SessionArchived) ==> n.meta.archived == s.meta.archived
            &&& !(e.event is ContextReset) ==> n.meta.context_epoch == s.meta.context_epoch
            &&& !(e.event is TurnCompleted) ==> n.meta.completed_turns == s.meta.completed_turns
            &&& !(e.event is SkillActivated || e.event is SkillDeactivated)
                ==> n.meta.active_skills == s.meta.active_skills
            &&& match e.event {
                SessionEvent::TitleChanged { title } => n.meta.title == title@ && same_but_stamp(
                    n.meta,
                    SummaryView { title: title@, ..s.meta },
                ),
                SessionEvent::ModelChanged { model, model_id } => same_but_stamp(
                    n.meta,
                    SummaryView { model: model@, model_id: model_id@, ..s.meta },
                ),
                SessionEvent::SessionForked { parent_session_id, .. } => same_but_stamp(
                    n.meta,
                    SummaryView { parent_session_id: Some(parent_session_id), ..s.meta },
                ),
                SessionEvent::SessionArchived => same_but_stamp(
                    n.meta,
                    SummaryView { archived: true, status: SessionStatus::Archived, ..s.meta },
                ),
                SessionEvent::RuntimeStarted(_) => same_but_stamp(n.meta, s.meta),
                _ => true,
            }
        }),
{
}

/// A Skill that is switched on is among the active ones, with what the event says of
/// it, next to all that were active before, and the list stays in its order.
pub proof fn a_skill_is_added_in_its_place(s: ProjectionView, e: EventEnvelope)
    requires
        e.seq != 1,
        e.event is SkillActivated,
        step(s, e) is Ok,
        forall|i: int, j: int|
            0 <= i < j < s.meta.active_skills.len() ==> s.meta.active_skills[i].order
                <= s.meta.active_skills[j].order,
    ensures
        ({
            let before = s.meta.active_skills;
            let now = step(s, e)->Ok_0.meta.active_skills;
            let new = SkillView {
                name: e.event->SkillActivated_name@,
                source: e.event->SkillActivated_source@,
                digest: e.event->SkillActivated_digest@,
                order: e.event->SkillActivated_order,
            };
            &&& forall|i: int| 0 <= i < before.len() ==> (#[trigger] before[i]).name != new.name
            &&& exists|k: int|
                0 <= k <= before.len() && now == #[trigger] before.take(k).push(new)
                    + before.skip(k)
            &&& forall|i: int, j: int|
                0 <= i < j < now.len() ==> (#[trigger] now[i]).order <= (#[trigger] now[j]).order
        }),
{
    let before = s.meta.active_skills;
    let new = SkillView {
        name: e.event->SkillActivated_name@,
        source: e.event->SkillActivated_source@,
        digest: e.event->SkillActivated_digest@,
        order: e.event->SkillActivated_order,
    };
    let names = skill_names(before);
    assert forall|i: int| 0 <= i < before.len() implies (#[trigger] before[i]).name != new.name by {
        assert(names[i] == before[i].name);
    }
    lemma_placed_between(before, new);
}

/// A Skill that is switched off is active no more; all others stay active, in their
/// order.
pub proof fn a_skill_is_taken_out(s: ProjectionView, e: EventEnvelope)
    requires
        e.seq != 1,
        e.event is SkillDeactivated,
        step(s, e) is Ok,
    ensures
        ({
            let name = e.event->SkillDeactivated_name@;
            let before = s.meta.active_skills;
            let now = step(s, e)->Ok_0.meta.active_skills;
            exists|places: Seq<int>|
                {
                    &&& #[trigger] picked(before, now, places)
                    &&& forall|k: int|
                        0 <= k < before.len() && before[k].name != name
                            <==> #[trigger] places.contains(k)
                }
        }),
{
    let name = e.event->SkillDeactivated_name@;
    let before = s.meta.active_skills;
    let places = lemma_filter_picks(before, |k: SkillView| k.name != name);
    assert(picked(before, step(s, e)->Ok_0.meta.active_skills, places));
}

proof fn lemma_placed_between(skills: Seq<SkillView>, new: SkillView)
    requires
        forall|i: int, j: int|
            0 <= i < j < skills.len() ==> skills[i].order <= skills[j].order,
    ensures
        exists|k: int|
            0 <= k <= skills.len() && placed(skills, new) == #[trigger] skills.take(k).push(new)
                + skills.skip(k),
        forall|i: int, j: int|
            0 <= i < j < placed(skills, new).len() ==> (#[trigger] placed(skills, new)[i]).order
                <= (#[trigger] placed(skills, new)[j]).order,
    decreases skills.len(),
{
    if skills.len() == 0 {
        assert(placed(skills, new) =~= skills.take(0).push(new) + skills.skip(0));
    } else {
        lemma_placed_between(skills.drop_last(), new);
        let front = skills.drop_last();
        let k = choose|k: int|
            0 <= k <= front.len() && placed(front, new) == #[trigger] front.take(k).push(new)
                + front.skip(k);
        if skills.last().order <= new.order {
            let n = skills.len() as int;
            assert(placed(skills, new) =~= skills.take(n).push(new) + skills.skip(n));
        } else {
            assert(placed(skills, new) =~= skills.take(k).push(new) + skills.skip(k));
        }
    }
}

proof fn lemma_last_item_is(items: Seq<ItemView>, call_id: Seq<char>, k: int)
    requires
        0 <= k < items.len(),
        items[k].tool_call_id == Some(call_id),
        forall|i: int|
            k < i < items.len() ==> (#[trigger] items[i]).tool_call_id != Some(call_id),
    ensures
        last_item(items, call_id) == k,
    decreases items.len(),
{
    if k < items.len() - 1 {
        assert(items[items.len() - 1].tool_call_id != Some(call_id));
        lemma_last_item_is(items.drop_last(), call_id, k);
    }
}

} // verus!
