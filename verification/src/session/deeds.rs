//! What a session does when it is asked to.
use crate::session::durable::{
    happened, is_interruption, is_new, logged, logged_and_cleared, renamed, title_from, turn_begun,
    SessionView, TITLE_FROM_INPUT,
};
use crate::session::event::SessionEvent;
use crate::session::model::{RunId, SessionId, SessionStatus, TranscriptKind, TurnId};
use crate::session::projection::context_messages;
use crate::session::record::{
    a_bad_ending_can_be_read, a_question_is_sent_as_it_was_put, a_silent_event_sends_nothing,
    says_only, what_was_said_can_be_read,
};
use crate::text::{control, joined, trimmed, words};
use vstd::prelude::*;

verus! {

/// What happened waits to be written, behind everything that waited before: once, in
/// the next place of the log, and with what the session was told.
pub proof fn an_event_waits_to_be_written(
    old: SessionView,
    new: SessionView,
    event: SessionEvent,
    run: Option<RunId>,
    turn: Option<TurnId>,
)
    requires
        happened(old, new, event, run, turn),
    ensures
        new.unsaved.len() == old.unsaved.len() + 1,
        new.unsaved.drop_last() == old.unsaved,
        ({
            let e = new.unsaved.last();
            &&& e.event == event
            &&& e.turn_id == turn
            &&& e.run_id == run
            &&& e.session_id == old.id
            &&& old.last_seq < u64::MAX ==> e.seq == old.last_seq + 1
            &&& new.last_seq == e.seq
            &&& e.parent_seq == old.stands_at
        }),
        new.id == old.id,
        new.kept == old.kept,
{
    assert(new.unsaved.drop_last() =~= old.unsaved);
}

/// A session that refuses something stays as it is.
pub proof fn a_refusal_changes_nothing(
    old: SessionView,
    new: SessionView,
    event: SessionEvent,
    turn: Option<TurnId>,
    message: Seq<char>,
)
    ensures
        logged(old, new, event, turn, Some(message)) ==> new == old,
        logged_and_cleared(old, new, event, turn, Some(message)) ==> new == old,
{
}

/// A session that was renamed has the title that it was given, without the space around
/// it; the title is not empty, not too long and without control characters. What the
/// model is sent and what people read stay.
pub proof fn a_renamed_session_has_its_title(old: SessionView, new: SessionView, title: Seq<char>)
    requires
        old.last_seq > 0,
        renamed(old, new, title, None),
    ensures
        new.projection.meta.title == trimmed(title),
        0 < new.projection.meta.title.len() <= 120,
        forall|i: int|
            0 <= i < new.projection.meta.title.len() ==> !control(
                #[trigger] new.projection.meta.title[i],
            ),
        context_messages(new.projection) == context_messages(old.projection),
        new.projection.transcript == old.projection.transcript,
        new.projection.meta.model == old.projection.meta.model,
        new.projection.active == old.projection.active,
{
    a_silent_event_sends_nothing(old.projection, new.unsaved.last());
}

/// A turn that began asks the model what the user asked, word for word, after
/// everything that it was sent before, and shows it to people.
pub proof fn a_turn_begins_with_the_question(
    old: SessionView,
    new: SessionView,
    input: Seq<char>,
    turn: Option<TurnId>,
)
    requires
        old.last_seq > 0,
        turn_begun(old, new, input, turn, None),
    ensures
        ({
            let sent = context_messages(new.projection);
            &&& sent.len() == context_messages(old.projection).len() + 1
            &&& sent.drop_last() == context_messages(old.projection)
            &&& says_only(sent.last(), "user"@, input)
            &&& new.projection.active matches Some(t) && t.input == input && Some(t.id) == turn
            &&& new.projection.transcript.len() == old.projection.transcript.len() + 1
            &&& new.projection.transcript.last().content == input
            &&& new.projection.transcript.last().kind == TranscriptKind::User
            &&& new.projection.meta.status == SessionStatus::Running
        }),
{
    a_question_is_sent_as_it_was_put(old.projection, new.unsaved.last());
    what_was_said_can_be_read(old.projection, new.unsaved.last());
}

/// A session that is opened in the middle of a turn ends the turn: what the model had
/// said by then can be read, its question can be asked again, and nothing of the turn
/// is sent to the model.
pub proof fn a_torn_turn_is_ended(
    opened: SessionView,
    new: SessionView,
    event: SessionEvent,
    reason: Seq<char>,
    partial: Option<Seq<char>>,
    turn: TurnId,
)
    requires
        opened.last_seq > 0,
        is_interruption(event, reason, partial),
        logged_and_cleared(opened, new, event, Some(turn), None),
    ensures
        new.projection.active is None,
        new.projection.meta.status == SessionStatus::Interrupted,
        new.projection.retry_input == Some(opened.projection.active->0.input),
        new.projection.committed == opened.projection.committed,
        new.draft_bytes == 0,
        ({
            let before = opened.projection.transcript;
            let now = new.projection.transcript;
            &&& now.last().content == "Turn interrupted: "@ + reason
            &&& partial matches Some(text) ==> now.len() == before.len() + 2
                && now[before.len() as int].content == text && now[before.len() as int].kind
                == TranscriptKind::Agent && now[before.len() as int].interrupted
            &&& partial is None ==> now.len() == before.len() + 1
            &&& now.take(before.len() as int) == before
        }),
{
    a_bad_ending_can_be_read(opened.projection, new.unsaved.last());
    let before = opened.projection.transcript;
    let now = new.projection.transcript;
    assert(now.take(before.len() as int) =~= before);
}

/// A new session is what it was made to be, and empty: nothing is sent, nothing is to be
/// read, and no turn runs.
pub proof fn a_new_session_is_empty(
    s: SessionView,
    id: SessionId,
    workspace: Seq<char>,
    model: Seq<char>,
    model_id: Seq<char>,
    parent: Option<SessionId>,
    title: Seq<char>,
)
    requires
        is_new(s, id, workspace, model, model_id, parent, title),
    ensures
        context_messages(s.projection).len() == 0,
        s.projection.transcript.len() == 0,
        s.projection.active is None,
        s.projection.meta.session_id == id,
        s.projection.meta.title == title,
        s.projection.meta.workspace == workspace,
        s.projection.meta.model == model,
        s.projection.meta.model_id == model_id,
        s.projection.meta.parent_session_id == parent,
        s.projection.meta.completed_turns == 0,
        !s.projection.meta.archived,
        s.projection.meta.status == SessionStatus::Idle,
        s.unsaved.len() == 1,
{
}

/// The title that an input gives is how its words begin, with one space between them.
pub proof fn a_title_is_how_the_input_begins(input: Seq<char>)
    ensures
        title_from(input).len() <= TITLE_FROM_INPUT,
        title_from(input) == joined(words(input), " "@).take(title_from(input).len() as int),
        joined(words(input), " "@).len() <= TITLE_FROM_INPUT ==> title_from(input) == joined(
            words(input),
            " "@,
        ),
{
    let whole = joined(words(input), " "@);
    assert(title_from(input) =~= whole.take(title_from(input).len() as int));
}

} // verus!
