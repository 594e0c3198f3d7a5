//! One session: what has happened in it so far, and the events that the program
//! has still to write to its log.
use crate::error::{fail, Error};
use crate::ids::random_uuid;
use crate::paths::{is_same_path, same_path};
use crate::session::coherence::coherent;
use crate::session::compaction::{saturated, threshold_reached};
use crate::session::event::{now, EventEnvelope, SessionCreated, SessionEvent, SCHEMA_VERSION};
use crate::session::model::{
    skill_views, ActiveSkillRecord, AssistantRecord, CompactionPlan, CompactionRecord, ModelContext,
    RunId, RuntimeSnapshot, SessionId, SessionSummary, SessionTree, ToolCallRecord,
    ToolResultRecord, Transcript, TurnFailure, TurnId, UserMessageRecord,
};
use crate::session::projection::{
    compactable, context_messages, first_step, held, lemma_step_keeps_tree, plan_source,
    projection_of, quarter, step, total_tokens, Projection, ProjectionView,
};
use crate::llm::protocol::message_views;
use crate::text::{
    blank, chars_of, control, first, is_blank, is_control, join, joined, maybe, same, take_chars,
    trim, trimmed, words, words_of,
};
use vstd::prelude::*;

verus! {

/// The title of a session that nobody has named.
pub const DEFAULT_TITLE: &'static str = "New session";

/// The longest title, in characters.
pub const MAX_TITLE: usize = 120;

/// How much of a first input becomes the title, in characters.
pub const TITLE_FROM_INPUT: usize = 60;

/// How much a draft must grow before it is saved again, in bytes.
pub const DRAFT_BYTE_INTERVAL: usize = 4096;

/// How long a draft may wait before it is saved again, in milliseconds.
pub const DRAFT_INTERVAL_MS: u64 = 250;

/// What a session was when its log was last written: all that its events
/// decide.
#[derive(Debug)]
pub struct Kept {
    pub(crate) projection: Projection,
    pub(crate) last_seq: u64,
    pub(crate) current_run_id: Option<RunId>,
    pub(crate) stands_at: Option<u64>,
}

/// The view of what a session was.
#[verifier::ext_equal]
pub struct KeptView {
    pub projection: ProjectionView,
    pub last_seq: u64,
    pub run: Option<RunId>,
    pub stands_at: Option<u64>,
}

impl View for Kept {
    type V = KeptView;

    closed spec fn view(&self) -> KeptView {
        KeptView {
            projection: self.projection@,
            last_seq: self.last_seq,
            run: self.current_run_id,
            stands_at: self.stands_at,
        }
    }
}

/// The view of what a session was, if it ever was anything.
pub open spec fn maybe_kept(k: Option<Kept>) -> Option<KeptView> {
    match k {
        Some(kept) => Some(kept@),
        None => None,
    }
}

/// A session. `unsaved` holds the events that are prepared and wait to be
/// written to its log. `kept` is the session as its log has it; `in_flight` is
/// what it will be once the event that is being written is in the log.
/// `stands_at` is the event that the next one follows, where that is not the
/// latest: the session then stands at the end of a branch.
#[derive(Debug)]
pub struct Session {
    pub(crate) id: SessionId,
    pub(crate) projection: Projection,
    pub(crate) last_seq: u64,
    pub(crate) current_run_id: Option<RunId>,
    pub(crate) draft_last_bytes: usize,
    pub(crate) stands_at: Option<u64>,
    pub(crate) unsaved: Vec<EventEnvelope>,
    pub(crate) kept: Option<Kept>,
    pub(crate) in_flight: Option<Kept>,
}

/// The view of a session.
#[verifier::ext_equal]
pub struct SessionView {
    pub id: SessionId,
    pub projection: ProjectionView,
    pub last_seq: u64,
    pub run: Option<RunId>,
    pub draft_bytes: usize,
    pub stands_at: Option<u64>,
    pub unsaved: Seq<EventEnvelope>,
    pub kept: Option<KeptView>,
    pub in_flight: Option<KeptView>,
}

impl View for Session {
    type V = SessionView;

    closed spec fn view(&self) -> SessionView {
        SessionView {
            id: self.id,
            projection: self.projection@,
            last_seq: self.last_seq,
            run: self.current_run_id,
            draft_bytes: self.draft_last_bytes,
            stands_at: self.stands_at,
            unsaved: self.unsaved@,
            kept: maybe_kept(self.kept),
            in_flight: maybe_kept(self.in_flight),
        }
    }
}

/// The run that a session is in after an event.
pub open spec fn run_after(before: Option<RunId>, event: SessionEvent, run: Option<RunId>) -> Option<
    RunId,
> {
    if event is RuntimeStarted {
        run
    } else {
        before
    }
}

/// What a session is after one more event; the first makes it.
pub open spec fn moved(k: Option<KeptView>, e: EventEnvelope) -> Result<KeptView, Seq<char>> {
    match k {
        None => match first_step(e) {
            Ok(projection) => Ok(
                KeptView { projection, last_seq: e.seq, run: None, stands_at: None },
            ),
            Err(m) => Err(m),
        },
        Some(k) => match step(k.projection, e) {
            Ok(projection) => Ok(
                KeptView {
                    projection,
                    last_seq: e.seq,
                    run: run_after(k.run, e.event, e.run_id),
                    stands_at: None,
                },
            ),
            Err(m) => Err(m),
        },
    }
}

/// What a session is after some more events.
pub open spec fn moved_by(k: Option<KeptView>, events: Seq<EventEnvelope>) -> Result<
    Option<KeptView>,
    Seq<char>,
>
    decreases events.len(),
{
    if events.len() == 0 {
        Ok(k)
    } else {
        match moved_by(k, events.drop_last()) {
            Err(m) => Err(m),
            Ok(before) => match moved(before, events.last()) {
                Ok(after) => Ok(Some(after)),
                Err(m) => Err(m),
            },
        }
    }
}

/// What a session is with all its events, those that wait among them.
pub open spec fn working(s: SessionView) -> KeptView {
    KeptView {
        projection: s.projection,
        last_seq: s.last_seq,
        run: s.run,
        stands_at: s.stands_at,
    }
}

/// What a session will be once the event that is being written is in the log.
pub open spec fn expected(s: SessionView) -> Option<KeptView> {
    match s.in_flight {
        Some(k) => Some(k),
        None => s.kept,
    }
}

/// A session that went back to what its log has.
pub open spec fn withdrawn(s: SessionView) -> SessionView {
    match s.kept {
        Some(k) => SessionView {
            projection: k.projection,
            last_seq: k.last_seq,
            run: k.run,
            stands_at: k.stands_at,
            unsaved: Seq::empty(),
            in_flight: None,
            ..s
        },
        None => s,
    }
}

/// The first of some events moves the session before the others do.
proof fn lemma_first_moves(k: Option<KeptView>, events: Seq<EventEnvelope>)
    requires
        events.len() > 0,
        moved_by(k, events) is Ok,
    ensures
        moved(k, events[0]) is Ok,
        moved_by(Some(moved(k, events[0])->Ok_0), events.drop_first()) == moved_by(k, events),
    decreases events.len(),
{
    let rest = events.drop_first();
    if events.len() == 1 {
        assert(events.drop_last() =~= Seq::empty());
        assert(rest =~= Seq::empty());
    } else {
        let t = events.drop_last();
        lemma_first_moves(k, t);
        assert(t[0] == events[0]);
        assert(t.drop_first() =~= rest.drop_last());
        assert(rest.last() == events.last());
    }
}

/// Putting an event into a log that cannot be written changes nothing: once the
/// session goes back to what its log has, it is what it was.
pub proof fn a_failed_write_changes_nothing(
    old: SessionView,
    new: SessionView,
    event: SessionEvent,
    run: Option<RunId>,
    turn: Option<TurnId>,
)
    requires
        happened(old, new, event, run, turn),
        old.unsaved.len() == 0,
        old.in_flight is None,
        old.kept == Some(working(old)),
    ensures
        withdrawn(new) == (SessionView { draft_bytes: new.draft_bytes, ..old }),
{
    assert(old.unsaved =~= Seq::empty());
}

/// What a session keeps is never ahead of its log: it is what the events amount
/// to that were written since it was taken up, and one more event that was
/// written moves it by exactly that event.
pub proof fn what_is_kept_was_written(
    start: Option<KeptView>,
    written: Seq<EventEnvelope>,
    kept: Option<KeptView>,
    e: EventEnvelope,
)
    requires
        moved_by(start, written) == Ok::<Option<KeptView>, Seq<char>>(kept),
        moved(kept, e) is Ok,
    ensures
        moved_by(start, written.push(e)) == Ok::<Option<KeptView>, Seq<char>>(
            Some(moved(kept, e)->Ok_0),
        ),
{
    assert(written.push(e).drop_last() =~= written);
}

/// The place of the next event: one further, held at the largest number.
pub open spec fn next_seq(last: u64) -> u64 {
    if last < u64::MAX {
        (last + 1) as u64
    } else {
        u64::MAX
    }
}

/// An event as it is put into the log of a session.
pub open spec fn enveloped(
    s: SessionView,
    event: SessionEvent,
    run: Option<RunId>,
    turn: Option<TurnId>,
    event_id: u128,
    timestamp: i128,
) -> EventEnvelope {
    EventEnvelope {
        schema_version: SCHEMA_VERSION,
        seq: next_seq(s.last_seq),
        parent_seq: s.stands_at,
        event_id,
        session_id: s.id,
        run_id: run,
        turn_id: turn,
        timestamp,
        event,
    }
}

/// An event happened: it waits to be written, and the projection has taken it
/// in. Its identifier and its time are whatever they are. What is kept does not
/// change before the event is written.
pub open spec fn happened(
    old: SessionView,
    new: SessionView,
    event: SessionEvent,
    run: Option<RunId>,
    turn: Option<TurnId>,
) -> bool {
    let e = new.unsaved.last();
    &&& new.unsaved == old.unsaved.push(e)
    &&& e == enveloped(old, event, run, turn, e.event_id, e.timestamp)
    &&& step(old.projection, e) == Ok::<ProjectionView, Seq<char>>(new.projection)
    &&& new.last_seq == e.seq
    &&& new.id == old.id
    &&& new.run == run_after(old.run, event, run)
    &&& new.stands_at is None
    &&& new.kept == old.kept
    &&& new.in_flight == old.in_flight
}

/// Which event the next one follows, where that is not the latest.
pub open spec fn standpoint(head: u64, last: u64) -> Option<u64> {
    if head == last {
        None
    } else {
        Some(head)
    }
}

/// The session does not accept an event, whatever its identifier and its time.
pub open spec fn refused(
    s: SessionView,
    event: SessionEvent,
    run: Option<RunId>,
    turn: Option<TurnId>,
    message: Seq<char>,
) -> bool {
    forall|event_id: u128, timestamp: i128|
        #![trigger enveloped(s, event, run, turn, event_id, timestamp)]
        step(s.projection, enveloped(s, event, run, turn, event_id, timestamp)) == Err::<
            ProjectionView,
            Seq<char>,
        >(message)
}

/// The outcome of putting an event into the log.
pub open spec fn logged(
    old: SessionView,
    new: SessionView,
    event: SessionEvent,
    turn: Option<TurnId>,
    error: Option<Seq<char>>,
) -> bool {
    match error {
        None => happened(old, new, event, old.run, turn) && new.draft_bytes == old.draft_bytes,
        Some(m) => new == old && refused(old, event, old.run, turn, m),
    }
}

/// The outcome of putting an event into the log, after which the draft of the
/// model's answer starts anew.
pub open spec fn logged_and_cleared(
    old: SessionView,
    new: SessionView,
    event: SessionEvent,
    turn: Option<TurnId>,
    error: Option<Seq<char>>,
) -> bool {
    match error {
        None => happened(old, new, event, old.run, turn) && new.draft_bytes == 0,
        Some(m) => new == old && refused(old, event, old.run, turn, m),
    }
}

/// The message of an outcome.
pub open spec fn refusal<T>(r: Result<T, Error>) -> Option<Seq<char>> {
    match r {
        Ok(_) => None,
        Err(e) => Some(e@),
    }
}

/// Whether an event is accepted does not hang on its identifier or its time.
pub proof fn lemma_stamp_does_not_matter(s: ProjectionView, a: EventEnvelope, b: EventEnvelope)
    requires
        a == (EventEnvelope { event_id: a.event_id, timestamp: a.timestamp, ..b }),
    ensures
        step(s, a) is Ok <==> step(s, b) is Ok,
        step(s, a) is Err ==> step(s, a) == step(s, b),
{
}

/// The title that an input gives to a session without one: its words with one
/// space between them, cut to length.
pub open spec fn title_from(input: Seq<char>) -> Seq<char> {
    first(joined(words(input), " "@), TITLE_FROM_INPUT as nat)
}

/// The title that an input gives to a session without one.
pub fn default_title(input: &str) -> (r: String)
    ensures
        r@ == title_from(input@),
{
    take_chars(join(&words_of(input), " ").as_str(), TITLE_FROM_INPUT)
}

/// What is wrong with a title, once it is trimmed.
pub open spec fn title_fault(title: Seq<char>) -> Option<Seq<char>> {
    if title.len() == 0 {
        Some("session title cannot be empty"@)
    } else if title.len() > MAX_TITLE {
        Some("session title cannot exceed 120 characters"@)
    } else if exists|i: int| 0 <= i < title.len() && control(#[trigger] title[i]) {
        Some("session title cannot contain control characters"@)
    } else {
        None
    }
}

/// Checks a trimmed title.
fn check_title(title: &str) -> (r: Result<(), Error>)
    ensures
        match title_fault(title@) {
            None => r is Ok,
            Some(m) => r matches Err(e) && e@ == m,
        },
{
    let chars = chars_of(title);
    if chars.len() == 0 {
        return Err(fail("session title cannot be empty"));
    }
    if chars.len() > MAX_TITLE {
        return Err(fail("session title cannot exceed 120 characters"));
    }
    let mut i: usize = 0;
    while i < chars.len()
        invariant
            i <= chars.len(),
            chars@ == title@,
            0 < title@.len() <= MAX_TITLE,
            forall|j: int| 0 <= j < i ==> !control(#[trigger] title@[j]),
        decreases chars.len() - i,
    {
        if is_control(chars[i]) {
            assert(control(title@[i as int]));
            return Err(fail("session title cannot contain control characters"));
        }
        i += 1;
    }
    Ok(())
}

/// The event of a new title.
pub open spec fn is_title_event(event: SessionEvent, title: Seq<char>) -> bool {
    event matches SessionEvent::TitleChanged { title: t } && t@ == title
}

/// The outcome of giving the session a title.
pub open spec fn renamed(
    old: SessionView,
    new: SessionView,
    title: Seq<char>,
    error: Option<Seq<char>>,
) -> bool {
    match title_fault(trimmed(title)) {
        Some(m) => error == Some(m) && new == old,
        None => exists|event: SessionEvent| #[trigger]
            is_title_event(event, trimmed(title)) && logged(old, new, event, None, error),
    }
}

/// Whether a session still has the title that it was made with, and no turn.
pub open spec fn untitled(s: ProjectionView) -> bool {
    s.meta.completed_turns == 0 && s.meta.title == DEFAULT_TITLE@
}

/// The event with which a turn begins.
pub open spec fn is_start_event(event: SessionEvent, input: Seq<char>) -> bool {
    event matches SessionEvent::TurnStarted(user) && user.content@ == input
}

/// The event with which a turn begins is not accepted.
pub open spec fn start_refused(
    old: SessionView,
    new: SessionView,
    event: SessionEvent,
    turn: TurnId,
    message: Seq<char>,
) -> bool {
    new == old && refused(old, event, old.run, Some(turn), message)
}

/// The outcome of beginning a turn on a session that has a title.
pub open spec fn turn_begun(
    old: SessionView,
    new: SessionView,
    input: Seq<char>,
    turn: Option<TurnId>,
    error: Option<Seq<char>>,
) -> bool {
    match error {
        None => turn is Some && exists|event: SessionEvent| #[trigger]
            is_start_event(event, input) && logged(old, new, event, turn, None),
        Some(m) => exists|event: SessionEvent, id: TurnId|
            is_start_event(event, input) && #[trigger] start_refused(old, new, event, id, m),
    }
}

/// What a successful outcome holds.
pub open spec fn outcome<T>(r: Result<T, Error>) -> Option<T> {
    match r {
        Ok(t) => Some(t),
        Err(_) => None,
    }
}

/// The outcome of beginning a run of the program.
pub open spec fn run_begun(
    old: SessionView,
    new: SessionView,
    snapshot: RuntimeSnapshot,
    run: Option<RunId>,
    error: Option<Seq<char>>,
) -> bool {
    if !same_path(snapshot.workspace@, old.projection.meta.workspace) {
        error == Some("session workspace does not match runtime workspace"@) && new == old
    } else {
        match error {
            None => run is Some && new.draft_bytes == old.draft_bytes && happened(
                old,
                new,
                SessionEvent::RuntimeStarted(snapshot),
                run,
                None,
            ),
            Some(m) => new == old && any_run_refused(old, snapshot, m),
        }
    }
}

/// A session that has only begun: its one event waits to be written.
pub open spec fn is_new(
    s: SessionView,
    id: SessionId,
    workspace: Seq<char>,
    model: Seq<char>,
    model_id: Seq<char>,
    parent_session_id: Option<SessionId>,
    title: Seq<char>,
) -> bool {
    let e = s.unsaved[0];
    &&& s.unsaved == seq![e]
    &&& first_step(e) == Ok::<ProjectionView, Seq<char>>(s.projection)
    &&& e == (EventEnvelope {
        schema_version: SCHEMA_VERSION,
        seq: 1,
        parent_seq: None,
        event_id: e.event_id,
        session_id: id,
        run_id: None,
        turn_id: None,
        timestamp: e.timestamp,
        event: e.event,
    })
    &&& e.event matches SessionEvent::SessionCreated(created) && created.title@ == title
        && created.workspace@ == workspace && created.model@ == model && created.model_id@
        == model_id && created.parent_session_id == parent_session_id
    &&& s.id == id
    &&& s.last_seq == 1
    &&& s.run is None
    &&& s.draft_bytes == 0
    &&& s.stands_at is None
    &&& s.kept is None
    &&& s.in_flight is None
}

impl Session {
    /// What holds of every session that this crate makes.
    pub closed spec fn wf(&self) -> bool {
        &&& self.projection.wf()
        &&& self@.projection.meta.last_seq <= self.last_seq
        &&& self@.projection.meta.session_id == self.id
        &&& moved_by(expected(self@), self@.unsaved) == Ok::<Option<KeptView>, Seq<char>>(
            Some(working(self@)),
        )
        &&& forall|i: int|
            0 <= i < self.unsaved@.len() ==> (#[trigger] self.unsaved@[i]).session_id == self.id
                && (i > 0 || expected(self@) is Some ==> self.unsaved@[i].seq > 1)
        &&& self.kept matches Some(k) ==> k.projection.wf() && k.projection@.meta.last_seq
            <= k.last_seq && k.projection@.meta.session_id == self.id
        &&& self.in_flight matches Some(k) ==> k.projection.wf() && k.projection@.meta.last_seq
            <= k.last_seq && k.projection@.meta.session_id == self.id
    }

    /// A session's projection is coherent, the session is named as its log is,
    /// and it is what its log and the events that wait amount to.
    pub proof fn lemma_wf(&self)
        requires
            self.wf(),
        ensures
            coherent(self@.projection),
            self@.projection.meta.last_seq <= self@.last_seq,
            self@.projection.meta.session_id == self@.id,
            moved_by(expected(self@), self@.unsaved) == Ok::<Option<KeptView>, Seq<char>>(
                Some(working(self@)),
            ),
    {
        self.projection.lemma_wf();
    }

    /// A new session, whose first event is still to be written.
    pub fn create(
        id: SessionId,
        workspace: String,
        model: String,
        model_id: String,
        parent_session_id: Option<SessionId>,
        title: String,
    ) -> (r: Result<Self, Error>)
        ensures
            r matches Ok(s) && s.wf() && is_new(
                s@,
                id,
                workspace@,
                model@,
                model_id@,
                parent_session_id,
                title@,
            ),
    {
        let created = SessionCreated {
            title,
            workspace,
            model,
            model_id,
            created_at: now(),
            parent_session_id,
        };
        let envelope = EventEnvelope::new(
            id,
            1,
            None,
            None,
            SessionEvent::SessionCreated(created),
        );
        let projection = match Projection::from_first(&envelope) {
            Ok(projection) => projection,
            Err(e) => {
                return Err(e);
            },
        };
        let mut unsaved: Vec<EventEnvelope> = Vec::new();
        unsaved.push(envelope);
        let out = Session {
            id,
            projection,
            last_seq: 1,
            current_run_id: None,
            draft_last_bytes: 0,
            stands_at: None,
            unsaved,
            kept: None,
            in_flight: None,
        };
        assert(out@.unsaved =~= seq![envelope]);
        assert(out@.unsaved.drop_last() =~= Seq::empty());
        reveal_with_fuel(moved_by, 2);
        Ok(out)
    }

    /// A new session without a title and without a log.
    pub fn ephemeral(workspace: String, model: String, model_id: String) -> (r: Result<Self, Error>)
        ensures
            r matches Ok(s) && s.wf() && is_new(
                s@,
                s@.id,
                workspace@,
                model@,
                model_id@,
                None,
                DEFAULT_TITLE@,
            ),
    {
        Self::create(
            SessionId::new(),
            workspace,
            model,
            model_id,
            None,
            DEFAULT_TITLE.to_owned(),
        )
    }

    /// A session that is taken up again from its log. An unfinished turn in it
    /// is ended, with what the draft had kept of the model's answer.
    pub fn open(id: SessionId, events: &[EventEnvelope], partial_output: Option<String>) -> (r:
        Result<Self, Error>)
        ensures
            match projection_of(events@) {
                Err(m) => r matches Err(e) && e@ == m,
                Ok(p) => if p.meta.session_id != id {
                    r matches Err(e) && e@ == "session ID does not match directory"@
                } else {
                    let opened = SessionView {
                        id,
                        projection: p,
                        last_seq: events@.last().seq,
                        run: None,
                        draft_bytes: 0,
                        stands_at: standpoint(p.tree.active_head_seq, events@.last().seq),
                        unsaved: Seq::empty(),
                        kept: Some(
                            KeptView {
                                projection: p,
                                last_seq: events@.last().seq,
                                run: None,
                                stands_at: standpoint(
                                    p.tree.active_head_seq,
                                    events@.last().seq,
                                ),
                            },
                        ),
                        in_flight: None,
                    };
                    match p.active {
                        None => r matches Ok(s) && s.wf() && s@ == opened,
                        Some(turn) => exists|event: SessionEvent| #[trigger]
                            is_interruption(event, "process_terminated"@, maybe(partial_output))
                                && match r {
                                Ok(s) => s.wf() && logged_and_cleared(
                                    opened,
                                    s@,
                                    event,
                                    Some(turn.id),
                                    None,
                                ),
                                Err(e) => refused(opened, event, None, Some(turn.id), e@),
                            },
                    }
                },
            },
    {
        let projection = match Projection::replay(events) {
            Ok(projection) => projection,
            Err(e) => {
                return Err(e);
            },
        };
        proof {
            projection.lemma_meta();
        }
        if projection.meta.session_id != id {
            return Err(fail("session ID does not match directory"));
        }
        assert(events@.len() > 0);
        let last_seq = events[events.len() - 1].seq;
        let head: u64 = projection.meta.active_head_seq;
        let stands_at: Option<u64> = if head == last_seq {
            None
        } else {
            Some(head)
        };
        let kept = Kept {
            projection: projection.clone(),
            last_seq,
            current_run_id: None,
            stands_at,
        };
        let mut session = Session {
            id,
            projection,
            last_seq,
            current_run_id: None,
            draft_last_bytes: 0,
            stands_at,
            unsaved: Vec::new(),
            kept: Some(kept),
            in_flight: None,
        };
        assert(session@ =~= (SessionView {
            id,
            projection: projection_of(events@)->Ok_0,
            last_seq: events@.last().seq,
            run: None,
            draft_bytes: 0,
            stands_at: standpoint(
                projection_of(events@)->Ok_0.tree.active_head_seq,
                events@.last().seq,
            ),
            unsaved: Seq::empty(),
            kept: Some(kept@),
            in_flight: None,
        }));
        assert(session@.kept == Some(working(session@)));
        match session.recover_unfinished_turn(partial_output) {
            Ok(()) => Ok(session),
            Err(e) => Err(e),
        }
    }

    /// Ends a turn that was running when the program stopped.
    fn recover_unfinished_turn(&mut self, partial_output: Option<String>) -> (r: Result<(), Error>)
        requires
            old(self).wf(),
            old(self)@.draft_bytes == 0,
        ensures
            final(self).wf(),
            match old(self)@.projection.active {
                None => r is Ok && final(self)@ == old(self)@,
                Some(turn) => exists|event: SessionEvent| #[trigger]
                    is_interruption(event, "process_terminated"@, maybe(partial_output))
                        && logged_and_cleared(
                        old(self)@,
                        final(self)@,
                        event,
                        Some(turn.id),
                        refusal(r),
                    ),
            },
    {
        match self.projection.active_turn_id() {
            Err(_) => {
                self.draft_last_bytes = 0;
                assert(self@ =~= old(self)@);
                Ok(())
            },
            Ok(id) => {
                let event = SessionEvent::TurnInterrupted {
                    reason: "process_terminated".to_owned(),
                    partial_output,
                };
                let ghost given = event;
                assert(is_interruption(given, "process_terminated"@, maybe(partial_output)));
                match self.append(event, Some(id)) {
                    Ok(_) => {
                        self.draft_last_bytes = 0;
                        Ok(())
                    },
                    Err(e) => Err(e),
                }
            },
        }
    }

    /// Puts an event into the log, under the current run.
    fn append(&mut self, event: SessionEvent, turn_id: Option<TurnId>) -> (r: Result<u64, Error>)
        requires
            old(self).wf(),
        ensures
            logged(old(self)@, final(self)@, event, turn_id, refusal(r)),
            r matches Ok(seq) ==> seq == final(self)@.last_seq,
            final(self).wf(),
    {
        self.append_with_ids(event, self.current_run_id, turn_id)
    }

    /// Puts an event into the log.
    pub(crate) fn append_with_ids(
        &mut self,
        event: SessionEvent,
        run_id: Option<RunId>,
        turn_id: Option<TurnId>,
    ) -> (r: Result<u64, Error>)
        requires
            old(self).wf(),
        ensures
            match r {
                Ok(seq) => happened(old(self)@, final(self)@, event, run_id, turn_id) && seq
                    == final(self)@.last_seq && final(self)@.draft_bytes == old(self)@.draft_bytes,
                Err(e) => final(self)@ == old(self)@ && refused(
                    old(self)@,
                    event,
                    run_id,
                    turn_id,
                    e@,
                ),
            },
            final(self).wf(),
    {
        let seq: u64 = self.last_seq.saturating_add(1);
        let mut envelope = EventEnvelope::at(
            self.id,
            seq,
            run_id,
            turn_id,
            event,
            random_uuid(),
            now(),
        );
        envelope.parent_seq = self.stands_at;
        let ghost e = envelope;
        let mut next = self.projection.clone();
        match next.apply(&envelope) {
            Err(error) => {
                proof {
                    assert forall|event_id: u128, timestamp: i128|
                        #![trigger enveloped(self@, event, run_id, turn_id, event_id, timestamp)]
                        step(
                            self@.projection,
                            enveloped(self@, event, run_id, turn_id, event_id, timestamp),
                        ) == Err::<ProjectionView, Seq<char>>(error@) by {
                        lemma_stamp_does_not_matter(
                            self@.projection,
                            e,
                            enveloped(self@, event, run_id, turn_id, event_id, timestamp),
                        );
                    }
                }
                Err(error)
            },
            Ok(()) => {
                if starts_run(&envelope.event) {
                    self.current_run_id = run_id;
                }
                self.projection = next;
                self.last_seq = seq;
                self.stands_at = None;
                self.unsaved.push(envelope);
                proof {
                    assert(self@.unsaved =~= old(self)@.unsaved.push(e));
                    assert(self@.unsaved.drop_last() =~= old(self)@.unsaved);
                    old(self).projection.lemma_wf();
                    lemma_step_keeps_tree(old(self)@.projection, e);
                }
                Ok(seq)
            },
        }
    }

    /// Hands out the next event that waits, for it to be written. There is none
    /// while another is being written.
    pub fn take_next(&mut self) -> (r: Option<EventEnvelope>)
        requires
            old(self).wf(),
        ensures
            final(self).wf(),
            ({
                let s = old(self)@;
                if s.in_flight is Some || s.unsaved.len() == 0 {
                    r is None && final(self)@ == s
                } else {
                    &&& r == Some(s.unsaved[0])
                    &&& moved(s.kept, s.unsaved[0]) is Ok
                    &&& final(self)@ == (SessionView {
                        unsaved: s.unsaved.drop_first(),
                        in_flight: Some(moved(s.kept, s.unsaved[0])->Ok_0),
                        ..s
                    })
                }
            }),
    {
        if self.in_flight.is_some() || self.unsaved.len() == 0 {
            return None;
        }
        let ghost s = self@;
        proof {
            lemma_first_moves(s.kept, s.unsaved);
        }
        let ghost waiting = self.unsaved@;
        let event = self.unsaved.remove(0);
        assert(self@.unsaved =~= s.unsaved.drop_first());
        assert forall|i: int| 0 <= i < self.unsaved@.len() implies (
        #[trigger] self.unsaved@[i]).session_id == self.id && self.unsaved@[i].seq > 1 by {
            assert(self.unsaved@[i] == waiting[i + 1]);
        }
        let next = match &self.kept {
            Some(kept) => {
                let mut projection = kept.projection.clone();
                let _ = projection.apply(&event);
                proof {
                    lemma_step_keeps_tree(kept.projection@, event);
                }
                Kept {
                    projection,
                    last_seq: event.seq,
                    current_run_id: if starts_run(&event.event) {
                        event.run_id
                    } else {
                        kept.current_run_id
                    },
                    stands_at: None,
                }
            },
            None => match Projection::from_first(&event) {
                Ok(projection) => Kept {
                    projection,
                    last_seq: event.seq,
                    current_run_id: None,
                    stands_at: None,
                },
                Err(_) => {
                    assert(false);
                    return None;
                },
            },
        };
        assert(next@ == moved(s.kept, event)->Ok_0);
        self.in_flight = Some(next);
        Some(event)
    }

    /// Notes that the event that was handed out is in the log.
    pub fn confirm(&mut self)
        requires
            old(self).wf(),
        ensures
            final(self).wf(),
            final(self)@ == (SessionView {
                kept: expected(old(self)@),
                in_flight: None,
                ..old(self)@
            }),
    {
        match self.in_flight.take() {
            Some(next) => {
                self.kept = Some(next);
            },
            None => {},
        }
    }

    /// Goes back to what the log has, when an event could not be written: all
    /// events that wait are dropped. A session of which nothing was ever written
    /// stays as it is.
    pub fn withdraw(&mut self) -> (r: bool)
        requires
            old(self).wf(),
        ensures
            final(self).wf(),
            final(self)@ == withdrawn(old(self)@),
            r == (old(self)@.kept is Some),
    {
        let (projection, last_seq, run, stands_at) = match &self.kept {
            Some(kept) => (
                kept.projection.clone(),
                kept.last_seq,
                kept.current_run_id,
                kept.stands_at,
            ),
            None => {
                return false;
            },
        };
        self.projection = projection;
        self.last_seq = last_seq;
        self.current_run_id = run;
        self.stands_at = stands_at;
        self.unsaved = Vec::new();
        self.in_flight = None;
        assert(self@ =~= withdrawn(old(self)@));
        true
    }

    /// The session's identifier.
    pub fn id(&self) -> (r: &SessionId)
        ensures
            *r == self@.id,
    {
        &self.id
    }

    /// The place of the latest event.
    pub fn last_seq(&self) -> (r: u64)
        ensures
            r == self@.last_seq,
    {
        self.last_seq
    }

    /// The current run.
    pub fn current_run(&self) -> (r: Option<RunId>)
        ensures
            r == self@.run,
    {
        self.current_run_id
    }

    /// The session's summary.
    pub fn summary(&self) -> (r: SessionSummary)
        ensures
            r@ == self@.projection.meta,
    {
        self.projection.summary()
    }

    /// The transcript.
    pub fn transcript(&self) -> (r: Transcript)
        ensures
            r@ == self@.projection.transcript,
    {
        self.projection.transcript()
    }

    /// What the model is sent.
    pub fn context(&self) -> (r: ModelContext)
        ensures
            message_views(r.messages@) == context_messages(self@.projection),
            r.estimated_tokens == held(total_tokens(context_messages(self@.projection))),
    {
        self.projection.context()
    }

    /// The Skills that are switched on.
    pub fn active_skills(&self) -> (r: Vec<ActiveSkillRecord>)
        ensures
            skill_views(r@) == self@.projection.meta.active_skills,
    {
        self.projection.active_skills()
    }

    /// The session's tree.
    pub fn tree(&self) -> (r: SessionTree)
        ensures
            r@ == self@.projection.tree,
    {
        self.projection.tree()
    }

    /// Gives the session a title.
    pub fn rename(&mut self, title: &str) -> (r: Result<(), Error>)
        requires
            old(self).wf(),
        ensures
            renamed(old(self)@, final(self)@, title@, refusal(r)),
            final(self).wf(),
    {
        let title = trim(title);
        match check_title(title.as_str()) {
            Ok(()) => {},
            Err(e) => {
                return Err(e);
            },
        }
        let event = SessionEvent::TitleChanged { title };
        let ghost given = event;
        assert(is_title_event(given, title@));
        match self.append(event, None) {
            Ok(_) => Ok(()),
            Err(e) => Err(e),
        }
    }

    /// Begins a run of the program on the session.
    pub fn start_runtime(&mut self, snapshot: RuntimeSnapshot) -> (r: Result<RunId, Error>)
        requires
            old(self).wf(),
        ensures
            final(self).wf(),
            run_begun(old(self)@, final(self)@, snapshot, outcome(r), refusal(r)),
    {
        proof {
            self.projection.lemma_meta();
        }
        if !is_same_path(
            snapshot.workspace.as_str(),
            self.projection.meta.workspace.as_str(),
        ) {
            return Err(fail("session workspace does not match runtime workspace"));
        }
        let run = RunId::new();
        match self.append_with_ids(SessionEvent::RuntimeStarted(snapshot), Some(run), None) {
            Ok(_) => {
                assert(run_begun(old(self)@, self@, snapshot, Some(run), None));
                Ok(run)
            },
            Err(e) => {
                assert(run_refused(old(self)@, snapshot, run, e@));
                assert(any_run_refused(old(self)@, snapshot, e@));
                Err(e)
            },
        }
    }

    /// Makes the session use another model; nothing happens where it already
    /// does.
    pub fn change_model(&mut self, model: String, model_id: String) -> (r: Result<(), Error>)
        requires
            old(self).wf(),
        ensures
            final(self).wf(),
            ({
                let p = old(self)@.projection;
                if p.active is Some {
                    &&& r matches Err(e) && e@ == "cannot change model during an active turn"@
                    &&& final(self)@ == old(self)@
                } else if p.meta.model == model@ && p.meta.model_id == model_id@ {
                    r is Ok && final(self)@ == old(self)@
                } else {
                    logged(
                        old(self)@,
                        final(self)@,
                        SessionEvent::ModelChanged { model, model_id },
                        None,
                        refusal(r),
                    )
                }
            }),
    {
        proof {
            self.projection.lemma_meta();
        }
        if self.projection.has_active_turn() {
            return Err(fail("cannot change model during an active turn"));
        }
        if same(self.projection.meta.model.as_str(), model.as_str()) && same(
            self.projection.meta.model_id.as_str(),
            model_id.as_str(),
        ) {
            return Ok(());
        }
        match self.append(SessionEvent::ModelChanged { model, model_id }, None) {
            Ok(_) => Ok(()),
            Err(e) => Err(e),
        }
    }

    /// Begins a turn. A session without a title first takes one from the input.
    pub fn begin_turn(&mut self, input: String) -> (r: Result<TurnId, Error>)
        requires
            old(self).wf(),
        ensures
            final(self).wf(),
            ({
                let s = old(self)@;
                if blank(input@) {
                    &&& r matches Err(e) && e@ == "turn input cannot be empty"@
                    &&& final(self)@ == s
                } else if s.projection.active is Some {
                    &&& r matches Err(e) && e@ == "session already has an active turn"@
                    &&& final(self)@ == s
                } else if untitled(s.projection) {
                    ||| (r matches Err(e) && renamed(
                        s,
                        final(self)@,
                        title_from(input@),
                        Some(e@),
                    ))
                    ||| exists|titled: SessionView| #[trigger]
                        renamed(s, titled, title_from(input@), None) && turn_begun(
                            titled,
                            final(self)@,
                            input@,
                            outcome(r),
                            refusal(r),
                        )
                } else {
                    turn_begun(s, final(self)@, input@, outcome(r), refusal(r))
                }
            }),
    {
        proof {
            self.projection.lemma_meta();
        }
        if is_blank(input.as_str()) {
            return Err(fail("turn input cannot be empty"));
        }
        if self.projection.has_active_turn() {
            return Err(fail("session already has an active turn"));
        }
        if self.projection.meta.completed_turns == 0 && same(
            self.projection.meta.title.as_str(),
            DEFAULT_TITLE,
        ) {
            match self.rename(default_title(input.as_str()).as_str()) {
                Ok(()) => {},
                Err(e) => {
                    return Err(e);
                },
            }
        }
        let ghost titled = self@;
        let turn = TurnId::new();
        let event = SessionEvent::TurnStarted(
            UserMessageRecord { message_id: random_uuid(), content: input },
        );
        let ghost given = event;
        assert(is_start_event(given, input@));
        match self.append(event, Some(turn)) {
            Ok(_) => {
                assert(logged(titled, self@, given, Some(turn), None));
                assert(turn_begun(titled, self@, input@, Some(turn), None));
                Ok(turn)
            },
            Err(e) => {
                assert(start_refused(titled, self@, given, turn, e@));
                assert(turn_begun(titled, self@, input@, None, Some(e@)));
                Err(e)
            },
        }
    }

    /// Records the model's answer.
    pub fn record_assistant(&mut self, response: AssistantRecord) -> (r: Result<(), Error>)
        requires
            old(self).wf(),
        ensures
            final(self).wf(),
            match old(self)@.projection.active {
                None => r matches Err(e) && e@ == "session has no active turn"@ && final(self)@
                    == old(self)@,
                Some(turn) => logged_and_cleared(
                    old(self)@,
                    final(self)@,
                    SessionEvent::AssistantCompleted(response),
                    Some(turn.id),
                    refusal(r),
                ),
            },
    {
        let turn = match self.projection.active_turn_id() {
            Ok(turn) => turn,
            Err(e) => {
                return Err(e);
            },
        };
        match self.append(SessionEvent::AssistantCompleted(response), Some(turn)) {
            Ok(_) => {
                self.draft_last_bytes = 0;
                Ok(())
            },
            Err(e) => Err(e),
        }
    }

    /// Records that a tool call begins.
    pub fn record_tool_started(&mut self, call: ToolCallRecord) -> (r: Result<(), Error>)
        requires
            old(self).wf(),
        ensures
            final(self).wf(),
            match old(self)@.projection.active {
                None => r matches Err(e) && e@ == "session has no active turn"@ && final(self)@
                    == old(self)@,
                Some(turn) => logged(
                    old(self)@,
                    final(self)@,
                    SessionEvent::ToolStarted(call),
                    Some(turn.id),
                    refusal(r),
                ),
            },
    {
        let turn = match self.projection.active_turn_id() {
            Ok(turn) => turn,
            Err(e) => {
                return Err(e);
            },
        };
        match self.append(SessionEvent::ToolStarted(call), Some(turn)) {
            Ok(_) => Ok(()),
            Err(e) => Err(e),
        }
    }

    /// Records that a tool call has ended.
    pub fn record_tool_finished(&mut self, result: ToolResultRecord) -> (r: Result<(), Error>)
        requires
            old(self).wf(),
        ensures
            final(self).wf(),
            match old(self)@.projection.active {
                None => r matches Err(e) && e@ == "session has no active turn"@ && final(self)@
                    == old(self)@,
                Some(turn) => logged(
                    old(self)@,
                    final(self)@,
                    SessionEvent::ToolFinished(result),
                    Some(turn.id),
                    refusal(r),
                ),
            },
    {
        let turn = match self.projection.active_turn_id() {
            Ok(turn) => turn,
            Err(e) => {
                return Err(e);
            },
        };
        match self.append(SessionEvent::ToolFinished(result), Some(turn)) {
            Ok(_) => Ok(()),
            Err(e) => Err(e),
        }
    }

    /// Ends the running turn with an event.
    fn close_turn(&mut self, turn_id: &TurnId, event: SessionEvent) -> (r: Result<(), Error>)
        requires
            old(self).wf(),
        ensures
            final(self).wf(),
            closed(old(self)@, final(self)@, *turn_id, event, refusal(r)),
    {
        let active = match self.projection.active_turn_id() {
            Ok(active) => active,
            Err(e) => {
                return Err(e);
            },
        };
        if active != *turn_id {
            return Err(fail("turn ID does not match active turn"));
        }
        match self.append(event, Some(*turn_id)) {
            Ok(_) => {
                self.draft_last_bytes = 0;
                Ok(())
            },
            Err(e) => Err(e),
        }
    }

    /// Ends the running turn well.
    pub fn finish_turn(&mut self, turn_id: &TurnId) -> (r: Result<(), Error>)
        requires
            old(self).wf(),
        ensures
            final(self).wf(),
            closed(
                old(self)@,
                final(self)@,
                *turn_id,
                SessionEvent::TurnCompleted,
                refusal(r),
            ),
    {
        self.close_turn(turn_id, SessionEvent::TurnCompleted)
    }

    /// Ends the running turn with a failure.
    pub fn fail_turn(&mut self, turn_id: &TurnId, failure: TurnFailure) -> (r: Result<(), Error>)
        requires
            old(self).wf(),
        ensures
            final(self).wf(),
            closed(
                old(self)@,
                final(self)@,
                *turn_id,
                SessionEvent::TurnFailed(failure),
                refusal(r),
            ),
    {
        self.close_turn(turn_id, SessionEvent::TurnFailed(failure))
    }

    /// Ends the running turn because it was cancelled.
    pub fn cancel_turn(&mut self, turn_id: &TurnId, reason: String) -> (r: Result<(), Error>)
        requires
            old(self).wf(),
        ensures
            final(self).wf(),
            closed(
                old(self)@,
                final(self)@,
                *turn_id,
                SessionEvent::TurnCancelled { reason },
                refusal(r),
            ),
    {
        self.close_turn(turn_id, SessionEvent::TurnCancelled { reason })
    }

    /// Begins a new context.
    pub fn reset_context(&mut self) -> (r: Result<(), Error>)
        requires
            old(self).wf(),
        ensures
            final(self).wf(),
            if old(self)@.projection.active is Some {
                &&& r matches Err(e) && e@ == "cannot reset context during an active turn"@
                &&& final(self)@ == old(self)@
            } else {
                logged(
                    old(self)@,
                    final(self)@,
                    SessionEvent::ContextReset {
                        new_epoch: next_seq(old(self)@.projection.meta.context_epoch),
                    },
                    None,
                    refusal(r),
                )
            },
    {
        proof {
            self.projection.lemma_meta();
        }
        if self.projection.has_active_turn() {
            return Err(fail("cannot reset context during an active turn"));
        }
        let new_epoch: u64 = self.projection.meta.context_epoch.saturating_add(1);
        match self.append(SessionEvent::ContextReset { new_epoch }, None) {
            Ok(_) => Ok(()),
            Err(e) => Err(e),
        }
    }

    /// Puts a summary in the place of earlier turns.
    pub fn apply_compaction(&mut self, compaction: CompactionRecord) -> (r: Result<(), Error>)
        requires
            old(self).wf(),
        ensures
            final(self).wf(),
            if old(self)@.projection.active is Some {
                &&& r matches Err(e) && e@ == "cannot compact during an active turn"@
                &&& final(self)@ == old(self)@
            } else {
                logged(
                    old(self)@,
                    final(self)@,
                    SessionEvent::ContextCompacted(compaction),
                    None,
                    refusal(r),
                )
            },
    {
        if self.projection.has_active_turn() {
            return Err(fail("cannot compact during an active turn"));
        }
        match self.append(SessionEvent::ContextCompacted(compaction), None) {
            Ok(_) => Ok(()),
            Err(e) => Err(e),
        }
    }

    /// Switches a Skill on.
    pub fn activate_skill(&mut self, name: String, source: String, digest: String, order: usize) -> (r:
        Result<(), Error>)
        requires
            old(self).wf(),
        ensures
            final(self).wf(),
            logged(
                old(self)@,
                final(self)@,
                SessionEvent::SkillActivated { name, source, digest, order },
                None,
                refusal(r),
            ),
    {
        match self.append(SessionEvent::SkillActivated { name, source, digest, order }, None) {
            Ok(_) => Ok(()),
            Err(e) => Err(e),
        }
    }

    /// Switches a Skill off.
    pub fn deactivate_skill(&mut self, name: String) -> (r: Result<(), Error>)
        requires
            old(self).wf(),
        ensures
            final(self).wf(),
            logged(
                old(self)@,
                final(self)@,
                SessionEvent::SkillDeactivated { name },
                None,
                refusal(r),
            ),
    {
        match self.append(SessionEvent::SkillDeactivated { name }, None) {
            Ok(_) => Ok(()),
            Err(e) => Err(e),
        }
    }

    /// Puts the session away. One that is put away already is refused.
    pub fn archive(&mut self) -> (r: Result<(), Error>)
        requires
            old(self).wf(),
        ensures
            final(self).wf(),
            if old(self)@.projection.meta.archived {
                &&& r matches Err(e) && e@ == "session is already archived"@
                &&& final(self)@ == old(self)@
            } else {
                logged(
                    old(self)@,
                    final(self)@,
                    SessionEvent::SessionArchived,
                    None,
                    refusal(r),
                )
            },
    {
        proof {
            self.projection.lemma_meta();
        }
        if self.projection.meta.archived {
            return Err(fail("session is already archived"));
        }
        match self.append(SessionEvent::SessionArchived, None) {
            Ok(_) => Ok(()),
            Err(e) => Err(e),
        }
    }

    /// What a compaction would summarize.
    pub fn compaction_plan(&self) -> (r: Option<CompactionPlan>)
        ensures
            r is Some <==> compactable(self@.projection),
            r matches Some(plan) ==> plan_of(self@.projection, plan),
    {
        self.projection.compaction_plan()
    }

    /// Whether the context fills enough of the window to be compacted.
    pub fn should_auto_compact(&self, context_window: usize) -> (r: bool)
        ensures
            r == (saturated(
                held(total_tokens(context_messages(self@.projection))) as int,
                4,
            ) >= saturated(context_window as int, 3)),
    {
        threshold_reached(self.context().estimated_tokens, context_window)
    }

    /// The input of the latest turn, where that turn ended badly.
    pub fn retry_input(&self) -> (r: Option<String>)
        ensures
            maybe(r) == self@.projection.retry_input,
    {
        self.projection.retry_input()
    }

    /// Whether a draft of the model's answer should be saved now: when that is
    /// forced, when it has grown enough, or when enough time has passed since
    /// it was last saved, if it ever was.
    pub fn draft_is_due(&self, content_bytes: usize, since_last_ms: Option<u64>, force: bool) -> (r:
        bool)
        ensures
            r == (force || content_bytes - self@.draft_bytes >= DRAFT_BYTE_INTERVAL || match since_last_ms {
                Some(ms) => ms >= DRAFT_INTERVAL_MS,
                None => true,
            }),
    {
        force || content_bytes.saturating_sub(self.draft_last_bytes) >= DRAFT_BYTE_INTERVAL
            || match since_last_ms {
            Some(ms) => ms >= DRAFT_INTERVAL_MS,
            None => true,
        }
    }

    /// Notes how long the draft was when it was saved.
    pub fn draft_saved(&mut self, content_bytes: usize)
        requires
            old(self).wf(),
        ensures
            final(self)@ == (SessionView { draft_bytes: content_bytes, ..old(self)@ }),
            final(self).wf(),
    {
        self.draft_last_bytes = content_bytes;
    }
}

/// Whether an event begins a run of the program.
fn starts_run(event: &SessionEvent) -> (r: bool)
    ensures
        r == (*event is RuntimeStarted),
{
    match event {
        SessionEvent::RuntimeStarted(_) => true,
        _ => false,
    }
}

/// The session does not accept a run of the program.
pub open spec fn run_refused(
    s: SessionView,
    snapshot: RuntimeSnapshot,
    run: RunId,
    message: Seq<char>,
) -> bool {
    refused(s, SessionEvent::RuntimeStarted(snapshot), Some(run), None, message)
}

/// The session does not accept some run of the program.
pub open spec fn any_run_refused(
    s: SessionView,
    snapshot: RuntimeSnapshot,
    message: Seq<char>,
) -> bool {
    exists|run: RunId| #[trigger] run_refused(s, snapshot, run, message)
}

/// The outcome of ending the running turn.
pub open spec fn closed(
    old: SessionView,
    new: SessionView,
    turn_id: TurnId,
    event: SessionEvent,
    error: Option<Seq<char>>,
) -> bool {
    match old.projection.active {
        None => error == Some("session has no active turn"@) && new == old,
        Some(turn) => if turn.id != turn_id {
            error == Some("turn ID does not match active turn"@) && new == old
        } else {
            logged_and_cleared(old, new, event, Some(turn_id), error)
        },
    }
}

/// The event of a turn that was cut off.
pub open spec fn is_interruption(
    event: SessionEvent,
    reason: Seq<char>,
    partial: Option<Seq<char>>,
) -> bool {
    event matches SessionEvent::TurnInterrupted { reason: r, partial_output } && r@ == reason
        && maybe(partial_output) == partial
}

/// A plan covers every completed turn but the latest few.
pub open spec fn plan_of(s: ProjectionView, plan: CompactionPlan) -> bool {
    let count = s.completed.len() - crate::session::compaction::KEEP_RECENT_TURNS;
    let through = s.completed[count - 1];
    &&& plan.source@ == plan_source(s.compaction_summary, s.completed.take(count))
    &&& plan.through_seq == through.completed_seq
    &&& plan.through_turn_id == through.id
    &&& plan.keep_from_turn_id == Some(s.completed[count].id)
    &&& plan.source_token_estimate == quarter(plan.source@.len())
}

} // verus!
