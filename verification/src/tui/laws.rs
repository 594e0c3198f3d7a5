//! What holds of the conversation that people see and of what they type.
use crate::agent::event::AgentEventView;
use crate::llm::whole::flow;
use crate::session::model::{ItemView, SummaryView, TranscriptKind};
use crate::text::{begins, blank, trimmed};
use crate::tui::app::{
    after_answer, after_event, after_input, after_text, after_tool, at_work, call_slot, kept,
    lemma_commands_begin_with_a_slash, loaded, message_slot, settled, shown_json,
    transcript_messages, with_message, ActionView, AgentState, AppMode, AppView, MessageKind,
    MessageView, SetupStage, SetupView, JSON_LIMIT, MAX_MESSAGE_HISTORY, RESTORED_MESSAGES,
};
use vstd::prelude::*;

verus! {

/// The latest messages are the ones that were there, without the earliest where there
/// are too many, and one more.
pub open spec fn one_more_at_the_end(before: Seq<MessageView>, after: Seq<MessageView>) -> bool {
    &&& after.len() > 0
    &&& before.len() < MAX_MESSAGE_HISTORY ==> after.drop_last() == before
    &&& before.len() == MAX_MESSAGE_HISTORY ==> after.drop_last() == before.drop_first()
}

/// Only one message differs.
pub open spec fn only_one_differs(
    before: Seq<MessageView>,
    after: Seq<MessageView>,
    k: int,
) -> bool {
    &&& 0 <= k < before.len()
    &&& after.len() == before.len()
    &&& forall|i: int| 0 <= i < before.len() && i != k ==> #[trigger] after[i] == before[i]
}

proof fn lemma_one_more(v: AppView, m: MessageView)
    requires
        v.messages.len() <= MAX_MESSAGE_HISTORY,
    ensures
        one_more_at_the_end(v.messages, with_message(v, m).messages),
        with_message(v, m).messages.last() == m,
{
    let after = with_message(v, m).messages;
    if v.messages.len() < MAX_MESSAGE_HISTORY {
        assert(after.drop_last() =~= v.messages);
    } else {
        assert(after.drop_last() =~= v.messages.drop_first());
    }
}

proof fn lemma_slot_of_message(messages: Seq<MessageView>, id: u128)
    ensures
        0 <= message_slot(messages, id) <= messages.len(),
        message_slot(messages, id) < messages.len() ==> messages[message_slot(messages, id)].id
            == id,
        forall|i: int|
            0 <= i < message_slot(messages, id) ==> (#[trigger] messages[i]).id != id,
    decreases messages.len(),
{
    if messages.len() > 0 && messages[0].id != id {
        let t = messages.drop_first();
        lemma_slot_of_message(t, id);
        let k = message_slot(messages, id);
        assert forall|i: int| 0 <= i < k implies (#[trigger] messages[i]).id != id by {
            if i > 0 {
                assert(t[i - 1] == messages[i]);
            }
        }
    }
}

/// A piece of an answer goes to the end of the message that is being written: the
/// message holds what it held and the piece, and no other message changes.
pub proof fn a_piece_goes_to_the_end(
    v: AppView,
    chunk: Seq<char>,
    is_final: bool,
    id: u128,
    writing: u128,
)
    requires
        v.streaming == Some(writing),
        message_slot(v.messages, writing) < v.messages.len(),
    ensures
        ({
            let k = message_slot(v.messages, writing);
            let n = after_text(v, chunk, is_final, id);
            &&& only_one_differs(v.messages, n.messages, k)
            &&& n.messages[k].content == v.messages[k].content + chunk
            &&& n.messages[k].id == writing
            &&& n.messages[k].kind == v.messages[k].kind
            &&& message_slot(n.messages, writing) == k
            &&& !is_final ==> n.streaming == Some(writing) && n.state == AgentState::Generating
            &&& is_final ==> n.streaming is None && !n.messages[k].is_streaming
        }),
{
    lemma_slot_of_message(v.messages, writing);
    let n = after_text(v, chunk, is_final, id);
    lemma_slot_of_message(n.messages, writing);
    let k = message_slot(v.messages, writing);
    let j = message_slot(n.messages, writing);
    assert(n.messages[k].id == writing);
    if j < k {
        assert(n.messages[j] == v.messages[j]);
    }
}

/// A first piece of an answer opens a message of the agent that holds just that piece,
/// behind all that were there.
pub proof fn a_first_piece_opens_a_message(v: AppView, chunk: Seq<char>, id: u128)
    requires
        v.streaming is None,
        chunk.len() > 0,
        v.messages.len() <= MAX_MESSAGE_HISTORY,
        forall|i: int| 0 <= i < v.messages.len() ==> (#[trigger] v.messages[i]).id != id,
    ensures
        ({
            let n = after_text(v, chunk, false, id);
            &&& one_more_at_the_end(v.messages, n.messages)
            &&& n.messages.last().content == chunk
            &&& n.messages.last().kind == MessageKind::Agent
            &&& n.messages.last().id == id
            &&& n.messages.last().is_streaming
            &&& n.streaming == Some(id)
            &&& message_slot(n.messages, id) == n.messages.len() - 1
        }),
{
    let empty = MessageView {
        id,
        kind: MessageKind::Agent,
        content: Seq::empty(),
        is_streaming: true,
        tool_call_id: None,
    };
    lemma_one_more(v, empty);
    let opened = with_message(v, empty).messages;
    let last = opened.len() - 1;
    assert forall|i: int| 0 <= i < last implies (#[trigger] opened[i]).id != id by {
        assert(opened.drop_last()[i] == opened[i]);
        if v.messages.len() == MAX_MESSAGE_HISTORY {
            assert(v.messages.drop_first()[i] == v.messages[i + 1]);
        }
    }
    lemma_slot_of_message(opened, id);
    assert(opened[last].id == id);
    let n = after_text(v, chunk, false, id);
    assert(Seq::<char>::empty() + chunk =~= chunk);
    assert(n.messages.drop_last() =~= opened.drop_last());
    lemma_slot_of_message(n.messages, id);
    assert(n.messages[last].id == id);
    assert forall|i: int| 0 <= i < last implies (#[trigger] n.messages[i]).id != id by {
        assert(n.messages[i] == opened[i]);
    }
}

/// What is seen after some pieces of an answer.
pub open spec fn after_pieces(v: AppView, chunks: Seq<Seq<char>>, ids: Seq<u128>) -> AppView
    decreases chunks.len(),
{
    if chunks.len() == 0 {
        v
    } else {
        after_text(
            after_pieces(v, chunks.drop_last(), ids),
            chunks.last(),
            false,
            ids[chunks.len() - 1],
        )
    }
}

/// However an answer is cut into pieces, the message that is being written holds what it
/// held and then all pieces, in order; no other message changes.
pub proof fn all_pieces_make_up_the_message(
    v: AppView,
    chunks: Seq<Seq<char>>,
    ids: Seq<u128>,
    writing: u128,
)
    requires
        v.streaming == Some(writing),
        message_slot(v.messages, writing) < v.messages.len(),
    ensures
        ({
            let k = message_slot(v.messages, writing);
            let n = after_pieces(v, chunks, ids);
            &&& only_one_differs(v.messages, n.messages, k)
            &&& n.messages[k].content == v.messages[k].content + flow(chunks)
            &&& n.streaming == Some(writing)
            &&& message_slot(n.messages, writing) == k
        }),
    decreases chunks.len(),
{
    let k = message_slot(v.messages, writing);
    lemma_slot_of_message(v.messages, writing);
    if chunks.len() == 0 {
        assert(v.messages[k].content + flow(chunks) =~= v.messages[k].content);
    } else {
        all_pieces_make_up_the_message(v, chunks.drop_last(), ids, writing);
        let m = after_pieces(v, chunks.drop_last(), ids);
        a_piece_goes_to_the_end(m, chunks.last(), false, ids[chunks.len() - 1], writing);
        let n = after_pieces(v, chunks, ids);
        assert(n.messages[k].content =~= v.messages[k].content + flow(chunks));
    }
}

/// What the agent reports is shown: a call that begins by its name and its arguments, an
/// error by its message, a question by the tool and its arguments. Each is one message
/// more, and the others stay.
pub proof fn a_report_is_shown(v: AppView, event: AgentEventView, id: u128)
    requires
        v.messages.len() <= MAX_MESSAGE_HISTORY,
        v.streaming is None,
        forall|i: int| 0 <= i < v.messages.len() ==> !(#[trigger] v.messages[i]).is_streaming,
    ensures
        ({
            let n = after_event(v, event, id);
            let shown = n.messages.last();
            match event {
                AgentEventView::ToolStarted { call_id, name, arguments, .. } => {
                    &&& one_more_at_the_end(v.messages, n.messages)
                    &&& shown.kind == MessageKind::Tool
                    &&& shown.tool_call_id == Some(call_id)
                    &&& arguments.len() <= JSON_LIMIT ==> shown.content == name + " "@ + arguments
                    &&& n.state == AgentState::RunningTool
                },
                AgentEventView::Error { message, recoverable, .. } => {
                    &&& one_more_at_the_end(v.messages, n.messages)
                    &&& shown.kind == MessageKind::Error
                    &&& shown.content.len() >= message.len()
                    &&& shown.content.skip(shown.content.len() - message.len()) == message
                    &&& n.state == AgentState::Error
                    &&& n.pending is None
                },
                AgentEventView::ApprovalRequired { request_id, call_id, tool_name, arguments, .. } => {
                    &&& one_more_at_the_end(v.messages, n.messages)
                    &&& shown.kind == MessageKind::System
                    &&& n.mode == AppMode::Confirming
                    &&& n.state == AgentState::WaitingApproval
                    &&& n.pending matches Some(p) && p.request_id == request_id && p.call_id
                        == call_id && p.tool_name == tool_name && p.arguments == arguments
                },
                AgentEventView::TurnCompleted { .. } => {
                    &&& n.messages == v.messages
                    &&& n.state == AgentState::Idle
                    &&& n.pending is None
                },
                AgentEventView::TurnStarted { .. } => n.messages == v.messages && n.state
                    == AgentState::Thinking,
                AgentEventView::DiagnosticsUpdated { diagnostics, .. } => n.messages == v.messages
                    && n.output_tokens == diagnostics.usage.output_tokens,
                _ => true,
            }
        }),
{
    let n = after_event(v, event, id);
    assert(settled(v).messages =~= v.messages);
    match event {
        AgentEventView::ToolStarted { .. } => {
            lemma_one_more(v, n.messages.last());
            lemma_last_of(v, MessageView {
                id,
                kind: MessageKind::Tool,
                content: event->ToolStarted_name + " "@ + shown_json(event->ToolStarted_arguments),
                is_streaming: true,
                tool_call_id: Some(event->ToolStarted_call_id),
            });
        },
        AgentEventView::Error { message, recoverable, .. } => {
            let head = (if recoverable {
                "Recoverable error"@
            } else {
                "Error"@
            }) + ": "@;
            let m = MessageView {
                id,
                kind: MessageKind::Error,
                content: head + message,
                is_streaming: false,
                tool_call_id: None,
            };
            lemma_last_of(settled(v), m);
            lemma_one_more(settled(v), m);
            assert((head + message).skip(head.len() as int) =~= message);
        },
        AgentEventView::ApprovalRequired { tool_name, arguments, .. } => {
            let m = MessageView {
                id,
                kind: MessageKind::System,
                content: crate::tui::app::approval_text(tool_name, arguments),
                is_streaming: false,
                tool_call_id: None,
            };
            lemma_last_of(v, m);
            lemma_one_more(v, m);
        },
        _ => {},
    }
}

proof fn lemma_last_of(v: AppView, m: MessageView)
    ensures
        with_message(v, m).messages.len() > 0,
        with_message(v, m).messages.last() == m,
{
}

/// A call that ended says so in the message in which it began, with its name first and
/// its result last; no other message changes.
pub proof fn a_result_is_shown_where_the_call_began(
    v: AppView,
    call_id: Seq<char>,
    name: Seq<char>,
    result: Seq<char>,
    success: bool,
    id: u128,
)
    requires
        call_slot(v.messages, call_id) is Some,
        result.len() <= JSON_LIMIT,
    ensures
        ({
            let k = call_slot(v.messages, call_id)->0;
            let n = after_tool(v, call_id, name, result, success, id);
            let word = if success {
                "completed"@
            } else {
                "failed"@
            };
            &&& only_one_differs(v.messages, n.messages, k)
            &&& v.messages[k].tool_call_id == Some(call_id)
            &&& n.messages[k].content == name + " "@ + word + ": "@ + result
            &&& !n.messages[k].is_streaming
            &&& n.messages[k].tool_call_id == Some(call_id)
            &&& n.messages[k].id == v.messages[k].id
        }),
{
    lemma_call_slot(v.messages, call_id);
}

proof fn lemma_call_slot(messages: Seq<MessageView>, call_id: Seq<char>)
    ensures
        call_slot(messages, call_id) matches Some(k) ==> 0 <= k < messages.len()
            && messages[k].tool_call_id == Some(call_id),
    decreases messages.len(),
{
    if messages.len() > 0 {
        lemma_call_slot(messages.drop_last(), call_id);
    }
}

/// What people type is sent as they typed it, without the space around it, and is shown
/// as theirs; the line is then empty. Where the agent is at work nothing is sent.
pub proof fn what_is_typed_is_sent(v: AppView, id: u128)
    requires
        !blank(v.input),
        !begins(trimmed(v.input), "/"@),
        v.messages.len() <= MAX_MESSAGE_HISTORY,
    ensures
        ({
            let (n, action) = after_input(v, id);
            &&& n.input.len() == 0
            &&& n.cursor == 0
            &&& !at_work(v.state) ==> {
                &&& action == ActionView::Submit(trimmed(v.input))
                &&& one_more_at_the_end(v.messages, n.messages)
                &&& n.messages.last().kind == MessageKind::User
                &&& n.messages.last().content == trimmed(v.input)
                &&& n.messages.last().id == id
                &&& n.state == AgentState::Thinking
            }
            &&& at_work(v.state) ==> {
                &&& action == ActionView::Nothing
                &&& n.messages == v.messages
            }
        }),
{
    let cleared = crate::tui::app::with_input(v, Seq::empty());
    let text = trimmed(v.input);
    lemma_commands_begin_with_a_slash(text);
    lemma_one_more(
        cleared,
        MessageView {
            id,
            kind: MessageKind::User,
            content: text,
            is_streaming: false,
            tool_call_id: None,
        },
    );
}

/// What a session shows when it is opened: every item of its transcript as it is, in
/// order, or the latest of them behind a note of how many there were before.
pub proof fn an_opened_session_shows_its_transcript(
    v: AppView,
    summary: SummaryView,
    transcript: Seq<ItemView>,
    context_tokens: usize,
)
    ensures
        ({
            let n = loaded(v, summary, transcript, context_tokens);
            let hidden: int = if transcript.len() > RESTORED_MESSAGES {
                transcript.len() - RESTORED_MESSAGES
            } else {
                0
            };
            let note: int = if hidden > 0 {
                1
            } else {
                0
            };
            &&& n.messages.len() == transcript.len() - hidden + note
            &&& forall|i: int|
                hidden <= i < transcript.len() ==> {
                    let m = n.messages[i - hidden + note];
                    &&& m.content == (#[trigger] transcript[i]).content
                    &&& m.id == transcript[i].id
                    &&& m.tool_call_id == transcript[i].tool_call_id
                    &&& m.kind == match transcript[i].kind {
                        TranscriptKind::User => MessageKind::User,
                        TranscriptKind::Agent => MessageKind::Agent,
                        TranscriptKind::Tool => MessageKind::Tool,
                        TranscriptKind::System => MessageKind::System,
                        TranscriptKind::Error => MessageKind::Error,
                    }
                    &&& !m.is_streaming
                }
            &&& n.info.workspace == summary.workspace
            &&& n.info.model == summary.model
            &&& n.info.model_id == summary.model_id
            &&& n.context_tokens == context_tokens
            &&& n.state == AgentState::Idle
        }),
{
    let all = transcript_messages(transcript);
    assert(all.len() == transcript.len());
}

/// While a model is set up, each answer is kept as it was given, and an empty one keeps
/// what was there; the models are then asked for with exactly these.
pub proof fn every_answer_is_kept(v: AppView, s: SetupView)
    ensures
        ({
            let answer = trimmed(v.input);
            let (n, action) = after_answer(v, s);
            match s.stage {
                SetupStage::BaseUrl => {
                    &&& n.setup matches Some(t)
                    &&& t.base_url == (if answer.len() == 0 {
                        s.base_url
                    } else {
                        answer
                    })
                    &&& t.model == s.model && t.protocol == s.protocol && t.authentication
                        == s.authentication && t.api_key == s.api_key
                    &&& t.stage == SetupStage::Authentication
                    &&& action == ActionView::Nothing
                },
                SetupStage::ApiKey => answer.len() > 0 ==> {
                    &&& n.setup matches Some(t)
                    &&& t.api_key == answer
                    &&& t.base_url == s.base_url && t.model == s.model && t.protocol == s.protocol
                        && t.authentication == s.authentication
                    &&& action == (ActionView::FetchModelChoices {
                        model: s.model,
                        base_url: s.base_url,
                        api_key: answer,
                        protocol: s.protocol,
                        authentication: s.authentication,
                    })
                },
                SetupStage::Protocol => answer.len() == 0 ==> {
                    &&& n.setup matches Some(t)
                    &&& t == (SetupView { stage: SetupStage::BaseUrl, ..s })
                },
                SetupStage::Authentication => answer.len() == 0 ==> {
                    &&& n.setup matches Some(t)
                    &&& t == (SetupView { stage: SetupStage::ApiKey, ..s })
                },
                SetupStage::ModelId => n == v && action == ActionView::Nothing,
            }
        }),
{
}

} // verus!
