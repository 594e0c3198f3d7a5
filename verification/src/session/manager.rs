//! All sessions of a user: finding, listing and forking them.
use crate::error::{fail, fail_about, Error};
use crate::ids::hyphenated;
use crate::paths::{is_same_path, join_path, same_path, under};
use crate::session::durable::{
    happened, is_new, refusal, refused, Session, SessionView, DEFAULT_TITLE,
};
use crate::session::event::{EventEnvelope, SessionEvent, SCHEMA_VERSION};
use crate::session::model::{
    markdown_body, markdown_head, CompactionRecord, CreateSession, SessionFilter, SessionId,
    SessionSnapshot, SessionSummary, SummaryView, TurnId,
};
use crate::session::projection::{
    first_step, projection_of, step, Projection, ProjectionView,
};
use crate::text::{begins, join, joined, maybe, starts_with, texts, trim, trimmed};
use vstd::prelude::*;

verus! {

/// The views of a list of summaries.
pub open spec fn summary_views(list: Seq<SessionSummary>) -> Seq<SummaryView> {
    list.map_values(|s: SessionSummary| s@)
}

/// The sessions found in one place, as a list shows them: those of the wanted
/// workspace, marked as put away where they were found among those.
pub open spec fn collected(
    found: Seq<SummaryView>,
    archived: bool,
    workspace: Option<Seq<char>>,
) -> Seq<SummaryView>
    decreases found.len(),
{
    if found.len() == 0 {
        Seq::empty()
    } else {
        let before = collected(found.drop_last(), archived, workspace);
        let s = found.last();
        if workspace is Some && !same_path(workspace->0, s.workspace) {
            before
        } else {
            before.push(SummaryView { archived: archived || s.archived, ..s })
        }
    }
}

/// A session put into its place: behind all that are not older.
pub open spec fn by_age(sorted: Seq<SummaryView>, new: SummaryView) -> Seq<SummaryView>
    decreases sorted.len(),
{
    if sorted.len() > 0 && sorted.last().updated_at < new.updated_at {
        by_age(sorted.drop_last(), new).push(sorted.last())
    } else {
        sorted.push(new)
    }
}

/// The sessions with the latest first; those of one time in their order.
pub open spec fn newest_first(list: Seq<SummaryView>) -> Seq<SummaryView>
    decreases list.len(),
{
    if list.len() == 0 {
        Seq::empty()
    } else {
        by_age(newest_first(list.drop_last()), list.last())
    }
}

/// What a list shows of the sessions that are kept and of those put away.
pub open spec fn listing(
    active: Seq<SummaryView>,
    archived: Seq<SummaryView>,
    workspace: Option<Seq<char>>,
    include_archived: bool,
) -> Seq<SummaryView> {
    newest_first(
        collected(active, false, workspace) + if include_archived {
            collected(archived, true, workspace)
        } else {
            Seq::empty()
        },
    )
}

/// Putting a session into its place adds it and nothing else, and keeps the
/// order.
proof fn lemma_by_age(sorted: Seq<SummaryView>, new: SummaryView)
    requires
        latest_on_top(sorted),
    ensures
        latest_on_top(by_age(sorted, new)),
        by_age(sorted, new).to_multiset() == sorted.to_multiset().insert(new),
        by_age(sorted, new).len() == sorted.len() + 1,
        forall|i: int|
            0 <= i < by_age(sorted, new).len() ==> (#[trigger] by_age(sorted, new)[i] == new
                || sorted.contains(by_age(sorted, new)[i])),
    decreases sorted.len(),
{
    broadcast use vstd::seq_lib::group_to_multiset_ensures;

    let out = by_age(sorted, new);
    if sorted.len() > 0 && sorted.last().updated_at < new.updated_at {
        let t = sorted.drop_last();
        assert(latest_on_top(t)) by {
            assert forall|i: int, j: int| 0 <= i < j < t.len() implies (#[trigger] t[i]).updated_at
                >= (#[trigger] t[j]).updated_at by {
                assert(t[i] == sorted[i] && t[j] == sorted[j]);
            }
        }
        lemma_by_age(t, new);
        let sub = by_age(t, new);
        assert(sorted =~= t.push(sorted.last()));
        assert(out.to_multiset() =~= sub.to_multiset().insert(sorted.last()));
        assert(out.to_multiset() =~= sorted.to_multiset().insert(new));
        assert forall|i: int| 0 <= i < out.len() implies (#[trigger] out[i] == new
            || sorted.contains(out[i])) by {
            if i < sub.len() {
                assert(out[i] == sub[i]);
                if sub[i] != new {
                    assert(t.contains(sub[i]));
                    let n = choose|n: int| 0 <= n < t.len() && t[n] == sub[i];
                    assert(sorted[n] == out[i]);
                }
            } else {
                assert(sorted[sorted.len() - 1] == out[i]);
            }
        }
        assert forall|i: int, j: int| 0 <= i < j < out.len() implies (#[trigger] out[i]).updated_at
            >= (#[trigger] out[j]).updated_at by {
            assert(out[i] == sub[i]);
            if j < sub.len() {
                assert(out[j] == sub[j]);
            } else if sub[i] != new {
                assert(t.contains(sub[i]));
                let n = choose|n: int| 0 <= n < t.len() && t[n] == sub[i];
                assert(sorted[n].updated_at >= sorted[sorted.len() - 1].updated_at);
            }
        }
    } else {
        assert forall|i: int| 0 <= i < out.len() implies (#[trigger] out[i] == new
            || sorted.contains(out[i])) by {
            if i < sorted.len() {
                assert(out[i] == sorted[i]);
            }
        }
        assert forall|i: int, j: int| 0 <= i < j < out.len() implies (#[trigger] out[i]).updated_at
            >= (#[trigger] out[j]).updated_at by {
            assert(out[i] == sorted[i]);
            if j < sorted.len() {
                assert(out[j] == sorted[j]);
            } else if i < sorted.len() - 1 {
                assert(sorted[i].updated_at >= sorted[sorted.len() - 1].updated_at);
            }
        }
    }
}

/// No session is older than one behind it.
pub open spec fn latest_on_top(list: Seq<SummaryView>) -> bool {
    forall|i: int, j: int|
        0 <= i < j < list.len() ==> (#[trigger] list[i]).updated_at >= (
        #[trigger] list[j]).updated_at
}

/// Sorting by age puts the latest on top, and neither loses nor adds a session.
pub proof fn newest_first_sorts(list: Seq<SummaryView>)
    ensures
        latest_on_top(newest_first(list)),
        newest_first(list).to_multiset() == list.to_multiset(),
        newest_first(list).len() == list.len(),
    decreases list.len(),
{
    broadcast use vstd::seq_lib::group_to_multiset_ensures;

    if list.len() > 0 {
        newest_first_sorts(list.drop_last());
        lemma_by_age(newest_first(list.drop_last()), list.last());
        assert(list =~= list.drop_last().push(list.last()));
    }
}

proof fn lemma_by_age_at(sorted: Seq<SummaryView>, new: SummaryView, k: int)
    requires
        0 <= k <= sorted.len(),
        k > 0 ==> sorted[k - 1].updated_at >= new.updated_at,
        forall|i: int| k <= i < sorted.len() ==> (#[trigger] sorted[i]).updated_at < new.updated_at,
    ensures
        by_age(sorted, new) == sorted.insert(k, new),
    decreases sorted.len(),
{
    if k < sorted.len() {
        let t = sorted.drop_last();
        assert forall|i: int| k <= i < t.len() implies (#[trigger] t[i]).updated_at
            < new.updated_at by {
            assert(t[i] == sorted[i]);
        }
        assert(k > 0 ==> t[k - 1] == sorted[k - 1]);
        assert(sorted[sorted.len() - 1].updated_at < new.updated_at);
        lemma_by_age_at(t, new, k);
        assert(t.insert(k, new).push(sorted.last()) =~= sorted.insert(k, new));
    } else {
        assert(sorted.insert(k, new) =~= sorted.push(new));
    }
}

/// The sessions whose identifier begins with `prefix`.
pub open spec fn matching(list: Seq<SummaryView>, prefix: Seq<char>) -> Seq<SessionId>
    decreases list.len(),
{
    if list.len() == 0 {
        Seq::empty()
    } else {
        let before = matching(list.drop_last(), prefix);
        let id = list.last().session_id;
        if begins(hyphenated(id.0), prefix) {
            before.push(id)
        } else {
            before
        }
    }
}

/// The identifiers as texts.
pub open spec fn id_texts(ids: Seq<SessionId>) -> Seq<Seq<char>> {
    ids.map_values(|id: SessionId| hyphenated(id.0))
}

/// The session that a prefix names among `list`, or why it names none.
pub open spec fn resolution(list: Seq<SummaryView>, prefix: Seq<char>) -> Result<
    SessionId,
    Seq<char>,
> {
    let p = trimmed(prefix);
    let found = matching(list, p);
    if p.len() == 0 {
        Err("session ID prefix cannot be empty"@)
    } else if found.len() == 1 {
        Ok(found[0])
    } else if found.len() == 0 {
        Err("no session matches '"@ + p + "'"@)
    } else {
        Err("session prefix '"@ + p + "' is ambiguous: "@ + joined(id_texts(found), ", "@))
    }
}

// ---------------------------------------------------------------------------
// Forks.
// ---------------------------------------------------------------------------

/// The place of the last completed turn among the first `k` events, or none.
pub open spec fn last_completion(events: Seq<EventEnvelope>, k: nat) -> Option<u64>
    decreases k,
{
    if k == 0 || k > events.len() {
        None
    } else if events[k - 1].event is TurnCompleted {
        Some(events[k - 1].seq)
    } else {
        last_completion(events, (k - 1) as nat)
    }
}

/// Where a fork cuts its parent's log: at the end of the turn that is named, or
/// of the last one.
pub open spec fn fork_cutoff(events: Seq<EventEnvelope>, through: Option<u64>) -> Result<
    u64,
    Seq<char>,
> {
    match through {
        None => match last_completion(events, events.len()) {
            Some(seq) => Ok(seq),
            None => Err("session has no completed turn to fork"@),
        },
        Some(seq) => if !(1 <= seq <= events.len()) {
            Err("fork cutoff sequence does not exist"@)
        } else if !(events[seq - 1].event is TurnCompleted) {
            Err("fork cutoff must be a completed turn sequence"@)
        } else {
            Ok(seq)
        },
    }
}

/// The turns that were completed among the first `k` events.
pub open spec fn completed_among(events: Seq<EventEnvelope>, k: nat) -> Set<TurnId>
    decreases k,
{
    if k == 0 || k > events.len() {
        Set::empty()
    } else {
        let before = completed_among(events, (k - 1) as nat);
        match (events[k - 1].event, events[k - 1].turn_id) {
            (SessionEvent::TurnCompleted, Some(id)) => before.insert(id),
            _ => before,
        }
    }
}

/// What a fork takes over so far, and where the turns end in it.
#[verifier::ext_equal]
pub struct ForkView {
    pub copies: Seq<(SessionEvent, Option<TurnId>)>,
    pub ends: Map<TurnId, u64>,
}

/// The event belongs to a turn that was completed.
pub open spec fn in_completed(e: EventEnvelope, done: Set<TurnId>) -> bool {
    e.turn_id matches Some(id) && done.contains(id)
}

/// What a fork takes over of one event: titles, models, resets and compactions
/// always, what happened in a turn only where the turn was completed.
pub open spec fn copy_of(e: EventEnvelope, done: Set<TurnId>, ends: Map<TurnId, u64>) -> Result<
    Option<SessionEvent>,
    Seq<char>,
> {
    match e.event {
        SessionEvent::TitleChanged { .. } => Ok(Some(e.event)),
        SessionEvent::ModelChanged { .. } => Ok(Some(e.event)),
        SessionEvent::ContextReset { .. } => Ok(Some(e.event)),
        SessionEvent::ContextCompacted(c) => if ends.dom().contains(c.through_turn_id) {
            Ok(
                Some(
                    SessionEvent::ContextCompacted(
                        CompactionRecord { through_seq: ends[c.through_turn_id], ..c },
                    ),
                ),
            )
        } else {
            Err("fork cannot map compaction cutoff"@)
        },
        SessionEvent::TurnStarted(_)
        | SessionEvent::AssistantCompleted(_)
        | SessionEvent::ToolStarted(_)
        | SessionEvent::ToolFinished(_)
        | SessionEvent::TurnCompleted => if in_completed(e, done) {
            Ok(Some(e.event))
        } else {
            Ok(None)
        },
        _ => Ok(None),
    }
}

/// The place of a fork's next event: the first is its creation, the second says
/// where it comes from.
pub open spec fn fork_seq(copies: nat) -> u64 {
    (copies + 3) as u64
}

/// A fork with one event of its parent taken over.
pub open spec fn fork_step(f: ForkView, e: EventEnvelope, done: Set<TurnId>) -> Result<
    ForkView,
    Seq<char>,
> {
    match copy_of(e, done, f.ends) {
        Err(m) => Err(m),
        Ok(None) => Ok(f),
        Ok(Some(event)) => Ok(
            ForkView {
                copies: f.copies.push((event, e.turn_id)),
                ends: match (e.event, e.turn_id) {
                    (SessionEvent::TurnCompleted, Some(id)) => f.ends.insert(
                        id,
                        fork_seq(f.copies.len()),
                    ),
                    _ => f.ends,
                },
            },
        ),
    }
}

/// What a fork takes over of the first `k` events, the creation left out.
pub open spec fn fork_fold(events: Seq<EventEnvelope>, done: Set<TurnId>, k: nat) -> Result<
    ForkView,
    Seq<char>,
>
    decreases k,
{
    if k <= 1 {
        Ok(ForkView { copies: Seq::empty(), ends: Map::empty() })
    } else {
        match fork_fold(events, done, (k - 1) as nat) {
            Err(m) => Err(m),
            Ok(f) => fork_step(f, events[k - 1], done),
        }
    }
}

/// What a log of consecutive events amounts to.
pub open spec fn unfolded(events: Seq<EventEnvelope>) -> Result<ProjectionView, Seq<char>>
    decreases events.len(),
{
    if events.len() <= 1 {
        first_step(events[0])
    } else {
        match unfolded(events.drop_last()) {
            Err(m) => Err(m),
            Ok(s) => step(s, events.last()),
        }
    }
}

/// An event of a session that is only continued, at its place, of no run.
pub open spec fn is_next(e: EventEnvelope, i: int, id: SessionId) -> bool {
    &&& e.schema_version == SCHEMA_VERSION
    &&& e.seq == i + 1
    &&& e.parent_seq is None
    &&& e.session_id == id
    &&& e.run_id is None
}

/// The beginning of a fork's log: its creation, its origin, and what it takes
/// over.
pub open spec fn is_fork_log(
    log: Seq<EventEnvelope>,
    parent: SessionId,
    source: SummaryView,
    cutoff: u64,
    copies: Seq<(SessionEvent, Option<TurnId>)>,
) -> bool {
    &&& 1 <= log.len() <= copies.len() + 2
    &&& log[0].event matches SessionEvent::SessionCreated(created) && created.title@ == source.title
        && created.workspace@ == source.workspace && created.model@ == source.model
        && created.model_id@ == source.model_id && created.parent_session_id == Some(parent)
    &&& log.len() > 1 ==> log[1].event == (SessionEvent::SessionForked {
        parent_session_id: parent,
        through_seq: cutoff,
    }) && log[1].turn_id is None
    &&& forall|i: int|
        2 <= i < log.len() ==> (#[trigger] log[i]).event == copies[i - 2].0 && log[i].turn_id
            == copies[i - 2].1
    &&& log[0].turn_id is None
    &&& forall|i: int| 0 <= i < log.len() ==> is_next(#[trigger] log[i], i, log[0].session_id)
}

/// A fork's log is not accepted.
pub open spec fn fork_refused(
    parent: SessionId,
    source: SummaryView,
    cutoff: u64,
    copies: Seq<(SessionEvent, Option<TurnId>)>,
    message: Seq<char>,
) -> bool {
    exists|log: Seq<EventEnvelope>| #[trigger]
        is_fork_log(log, parent, source, cutoff, copies) && unfolded(log) == Err::<
            ProjectionView,
            Seq<char>,
        >(message)
}

/// The outcome of a fork whose cutoff is known.
pub open spec fn forked(
    events: Seq<EventEnvelope>,
    parent: SessionId,
    source: SummaryView,
    cutoff: u64,
    child: Option<SessionView>,
    error: Option<Seq<char>>,
) -> bool {
    let done = completed_among(events, cutoff as nat);
    match error {
        None => child matches Some(c) && fork_fold(events, done, cutoff as nat) matches Ok(f) && {
            &&& is_fork_log(c.unsaved, parent, source, cutoff, f.copies)
            &&& c.unsaved.len() == f.copies.len() + 2
            &&& unfolded(c.unsaved) == Ok::<ProjectionView, Seq<char>>(c.projection)
            &&& c.last_seq == c.unsaved.len()
            &&& c.id == c.unsaved[0].session_id
            &&& c.id != parent
            &&& c.run is None
            &&& c.draft_bytes == 0
            &&& c.stands_at is None
            &&& c.kept is None
            &&& c.in_flight is None
        },
        Some(m) => fork_ends(events, done, parent, source, cutoff, m),
    }
}

/// A fork ends before it has taken over all events up to the cutoff.
pub open spec fn fork_ends(
    events: Seq<EventEnvelope>,
    done: Set<TurnId>,
    parent: SessionId,
    source: SummaryView,
    cutoff: u64,
    message: Seq<char>,
) -> bool {
    exists|k: nat|
        1 <= k <= cutoff && #[trigger] fork_stopped(
            events,
            done,
            k,
            parent,
            source,
            cutoff,
            message,
        )
}

/// A fork ends at the `k`-th event of its parent: nothing could be made of the
/// event, or the fork does not accept what was made of it.
pub open spec fn fork_stopped(
    events: Seq<EventEnvelope>,
    done: Set<TurnId>,
    k: nat,
    parent: SessionId,
    source: SummaryView,
    cutoff: u64,
    message: Seq<char>,
) -> bool {
    match fork_fold(events, done, k) {
        Err(m) => m == message,
        Ok(f) => fork_refused(parent, source, cutoff, f.copies, message),
    }
}

/// The sessions under one directory.
#[derive(Debug)]
pub struct SessionManager {
    root: String,
}

impl View for SessionManager {
    type V = Seq<char>;

    closed spec fn view(&self) -> Seq<char> {
        self.root@
    }
}

impl SessionManager {
    /// The sessions under `root`.
    pub fn at(root: String) -> (r: Self)
        ensures
            r@ == root@,
    {
        SessionManager { root }
    }

    /// The directory of the sessions.
    pub fn root(&self) -> (r: &str)
        ensures
            r@ == self@,
    {
        self.root.as_str()
    }

    /// Where sessions are kept.
    pub fn sessions_dir(&self) -> (r: String)
        ensures
            r@ == under(self@, "sessions"@),
    {
        join_path(self.root.as_str(), "sessions")
    }

    /// Where sessions are put away.
    pub fn archive_dir(&self) -> (r: String)
        ensures
            r@ == under(self@, "archive"@),
    {
        join_path(self.root.as_str(), "archive")
    }

    /// The directory of one session, where the program says which of the two
    /// places has one.
    pub fn find_session_dir(&self, id: SessionId, kept: bool, put_away: bool) -> (r: Result<
        String,
        Error,
    >)
        ensures
            if kept {
                r matches Ok(path) && path@ == under(under(self@, "sessions"@), hyphenated(id.0))
            } else if put_away {
                r matches Ok(path) && path@ == under(under(self@, "archive"@), hyphenated(id.0))
            } else {
                r matches Err(e) && e@ == "session "@ + hyphenated(id.0) + " was not found"@
            },
    {
        let name = id.to_text();
        if kept {
            Ok(join_path(self.sessions_dir().as_str(), name.as_str()))
        } else if put_away {
            Ok(join_path(self.archive_dir().as_str(), name.as_str()))
        } else {
            Err(fail_about("session ", name.as_str(), " was not found"))
        }
    }

    /// A new session without a title, in a workspace whose path is canonical.
    pub fn create(&self, options: CreateSession) -> (r: Result<Session, Error>)
        ensures
            r matches Ok(s) && s.wf() && is_new(
                s@,
                s@.id,
                options.workspace@,
                options.model@,
                options.model_id@,
                None,
                DEFAULT_TITLE@,
            ),
    {
        Session::create(
            SessionId::new(),
            options.workspace,
            options.model,
            options.model_id,
            None,
            DEFAULT_TITLE.to_owned(),
        )
    }

    /// Adds the sessions found in one place to a list.
    fn collect_summaries(
        &self,
        found: &Vec<SessionSummary>,
        archived: bool,
        filter: &SessionFilter,
        output: &mut Vec<SessionSummary>,
    )
        ensures
            summary_views(final(output)@) == summary_views(old(output)@) + collected(
                summary_views(found@),
                archived,
                maybe(filter.workspace),
            ),
    {
        let ghost before = summary_views(output@);
        let ghost views = summary_views(found@);
        let ghost workspace = maybe(filter.workspace);
        let mut i: usize = 0;
        assert(before + collected(views.take(0), archived, workspace) =~= before);
        while i < found.len()
            invariant
                i <= found.len(),
                views == summary_views(found@),
                workspace == maybe(filter.workspace),
                summary_views(output@) == before + collected(
                    views.take(i as int),
                    archived,
                    workspace,
                ),
            decreases found.len() - i,
        {
            let ghost now = views.take(i + 1);
            assert(now.drop_last() =~= views.take(i as int));
            assert(now.last() == found@[i as int]@);
            let wanted = match &filter.workspace {
                Some(w) => is_same_path(w.as_str(), found[i].workspace.as_str()),
                None => true,
            };
            if wanted {
                let mut summary = found[i].clone();
                summary.archived = archived || summary.archived;
                let ghost shown = summary@;
                assert(summary_views(output@.push(summary)) =~= summary_views(output@).push(shown));
                output.push(summary);
                assert(shown =~= SummaryView {
                    archived: archived || now.last().archived,
                    ..now.last()
                });
                assert(summary_views(output@) =~= before + collected(now, archived, workspace));
            }
            i += 1;
        }
        assert(views.take(i as int) =~= views);
    }

    /// The sessions, the latest first, out of those found among the kept ones
    /// and among those put away.
    pub fn list(
        &self,
        kept: &Vec<SessionSummary>,
        put_away: &Vec<SessionSummary>,
        filter: &SessionFilter,
    ) -> (r: Vec<SessionSummary>)
        ensures
            summary_views(r@) == listing(
                summary_views(kept@),
                summary_views(put_away@),
                maybe(filter.workspace),
                filter.include_archived,
            ),
    {
        let mut found: Vec<SessionSummary> = Vec::new();
        self.collect_summaries(kept, false, filter, &mut found);
        if filter.include_archived {
            self.collect_summaries(put_away, true, filter, &mut found);
        }
        let ghost all = collected(summary_views(kept@), false, maybe(filter.workspace)) + if filter.include_archived {
            collected(summary_views(put_away@), true, maybe(filter.workspace))
        } else {
            Seq::empty()
        };
        assert(summary_views(found@) =~= all);
        sort_by_age(&found)
    }

    /// The latest of the sessions of a workspace that are kept.
    pub fn latest(&self, kept: &Vec<SessionSummary>, workspace: &str) -> (r: Option<SessionSummary>)
        ensures
            ({
                let all = listing(
                    summary_views(kept@),
                    Seq::empty(),
                    Some(workspace@),
                    false,
                );
                match r {
                    Some(s) => all.len() > 0 && s@ == all[0],
                    None => all.len() == 0,
                }
            }),
    {
        let filter = SessionFilter { workspace: Some(workspace.to_owned()), include_archived: false };
        let none: Vec<SessionSummary> = Vec::new();
        let all = self.list(kept, &none, &filter);
        assert(summary_views(none@) =~= Seq::<SummaryView>::empty());
        if all.len() > 0 {
            assert(summary_views(all@)[0] == all@[0]@);
            Some(all[0].clone())
        } else {
            None
        }
    }

    /// The one session among `sessions` whose identifier begins with `prefix`.
    pub fn resolve_prefix(&self, prefix: &str, sessions: &Vec<SessionSummary>) -> (r: Result<
        SessionId,
        Error,
    >)
        ensures
            match resolution(summary_views(sessions@), prefix@) {
                Ok(id) => r == Ok::<SessionId, Error>(id),
                Err(m) => r matches Err(e) && e@ == m,
            },
    {
        let prefix = trim(prefix);
        if prefix.as_str().is_empty() {
            return Err(fail("session ID prefix cannot be empty"));
        }
        let ghost views = summary_views(sessions@);
        let mut found: Vec<SessionId> = Vec::new();
        let mut names: Vec<String> = Vec::new();
        let mut i: usize = 0;
        assert(texts(names@) =~= id_texts(found@));
        while i < sessions.len()
            invariant
                i <= sessions.len(),
                views == summary_views(sessions@),
                found@ == matching(views.take(i as int), prefix@),
                texts(names@) == id_texts(found@),
            decreases sessions.len() - i,
        {
            let id = sessions[i].session_id;
            proof {
                let now = views.take(i + 1);
                assert(now.drop_last() =~= views.take(i as int));
                assert(now.last() == sessions@[i as int]@);
            }
            let name = id.to_text();
            if starts_with(name.as_str(), prefix.as_str()) {
                proof {
                    crate::text::lemma_texts_push(names@, name);
                    assert(id_texts(found@.push(id)) =~= id_texts(found@).push(hyphenated(id.0)));
                }
                found.push(id);
                names.push(name);
            }
            i += 1;
        }
        assert(views.take(i as int) =~= views);
        if found.len() == 1 {
            Ok(found[0])
        } else if found.len() == 0 {
            Err(fail_about("no session matches '", prefix.as_str(), "'"))
        } else {
            let mut text = prefix.clone();
            text.append("' is ambiguous: ");
            text.append(join(&names, ", ").as_str());
            let out = crate::error::fail_with("session prefix '", text.as_str());
            assert(out@ =~= "session prefix '"@ + prefix@ + "' is ambiguous: "@ + joined(
                id_texts(found@),
                ", "@,
            ));
            Err(out)
        }
    }

    /// A session's summary and transcript, from its log.
    pub fn show(&self, events: &[EventEnvelope]) -> (r: Result<SessionSnapshot, Error>)
        ensures
            match projection_of(events@) {
                Ok(s) => r matches Ok(shot) && shot.summary@ == s.meta && shot.transcript@
                    == s.transcript,
                Err(m) => r matches Err(e) && e@ == m,
            },
    {
        match Projection::replay(events) {
            Ok(projection) => Ok(
                SessionSnapshot {
                    summary: projection.summary(),
                    transcript: projection.transcript(),
                },
            ),
            Err(e) => Err(e),
        }
    }

    /// A session as a Markdown document, from its log.
    pub fn export(&self, events: &[EventEnvelope]) -> (r: Result<String, Error>)
        ensures
            match projection_of(events@) {
                Ok(s) => r matches Ok(text) && text@ == markdown_head(s.meta) + markdown_body(
                    s.transcript,
                ),
                Err(m) => r matches Err(e) && e@ == m,
            },
    {
        match Projection::replay(events) {
            Ok(projection) => Ok(projection.transcript().to_markdown(&projection.summary())),
            Err(e) => Err(e),
        }
    }

    /// A new session that begins with what its parent had at the end of a
    /// completed turn. Turns that were not completed stay behind.
    #[verifier::loop_isolation(false)]
    pub fn fork(&self, id: SessionId, events: Vec<EventEnvelope>, through_seq: Option<u64>) -> (r:
        Result<Session, Error>)
        requires
            events.len() < u64::MAX - 3,
        ensures
            match projection_of(events@) {
                Err(m) => r matches Err(e) && e@ == m,
                Ok(source) => match fork_cutoff(events@, through_seq) {
                    Err(m) => r matches Err(e) && e@ == m,
                    Ok(cutoff) => forked(
                        events@,
                        id,
                        source.meta,
                        cutoff,
                        child_view(r),
                        refusal(r),
                    ) && (r matches Ok(s) ==> s.wf()),
                },
            },
    {
        let source = match Projection::replay(events.as_slice()) {
            Ok(source) => source,
            Err(e) => {
                return Err(e);
            },
        };
        let ghost all = events@;
        proof {
            lemma_numbered(all);
        }
        let cutoff: u64 = match through_seq {
            Some(seq) => {
                if seq < 1 || seq > events.len() as u64 {
                    return Err(fail("fork cutoff sequence does not exist"));
                }
                let at = (seq - 1) as usize;
                let completes = match &events[at].event {
                    SessionEvent::TurnCompleted => true,
                    _ => false,
                };
                if !completes {
                    return Err(fail("fork cutoff must be a completed turn sequence"));
                }
                seq
            },
            None => match find_completion(&events) {
                Some(seq) => seq,
                None => {
                    return Err(fail("session has no completed turn to fork"));
                },
            },
        };
        let done = completed_turns(&events, cutoff as usize);
        let summary = source.summary();
        let ghost origin = source@.meta;
        let mut child = match Session::create(
            id.other(),
            summary.workspace,
            summary.model,
            summary.model_id,
            Some(id),
            summary.title,
        ) {
            Ok(child) => child,
            Err(e) => {
                return Err(e);
            },
        };
        let ghost done_set = completed_among(all, cutoff as nat);
        let ghost none: Seq<(SessionEvent, Option<TurnId>)> = Seq::empty();
        assert(is_fork_log(child@.unsaved, id, origin, cutoff, none));
        let ghost start = child@;
        match child.append_with_ids(
            SessionEvent::SessionForked { parent_session_id: id, through_seq: cutoff },
            None,
            None,
        ) {
            Ok(_) => {
                proof {
                    lemma_log_grows(
                        start,
                        child@,
                        SessionEvent::SessionForked { parent_session_id: id, through_seq: cutoff },
                        None,
                    );
                }
            },
            Err(e) => {
                proof {
                    let f = fork_fold(all, done_set, 1)->Ok_0;
                    lemma_log_refused(
                        start,
                        SessionEvent::SessionForked { parent_session_id: id, through_seq: cutoff },
                        None,
                        e@,
                        id,
                        origin,
                        cutoff,
                        f.copies,
                    );
                    assert(fork_stopped(all, done_set, 1, id, origin, cutoff, e@));
                    assert(fork_ends(all, done_set, id, origin, cutoff, e@));
                }
                return Err(e);
            },
        }
        let mut ends: Vec<(TurnId, u64)> = Vec::new();
        let ghost mut f = fork_fold(all, done_set, 1)->Ok_0;
        let mut k: usize = 0;
        assert(ends_map(ends@) =~= f.ends);
        for envelope in it: events
            invariant
                it.seq() == all,
                k == it.index(),
                all.len() < u64::MAX - 3,
                all.len() <= usize::MAX,
                1 <= cutoff <= all.len(),
                done_set == completed_among(all, cutoff as nat),
                done@.to_set() == done_set,
                child.wf(),
                child@.run is None,
                child@.draft_bytes == 0,
                child@.stands_at is None,
                child@.kept is None,
                child@.in_flight is None,
                k <= cutoff ==> fork_fold(all, done_set, k as nat) == Ok::<ForkView, Seq<char>>(f),
                k > cutoff ==> fork_fold(all, done_set, cutoff as nat) == Ok::<
                    ForkView,
                    Seq<char>,
                >(f),
                f.copies.len() <= k,
                ends_map(ends@) == f.ends,
                is_fork_log(child@.unsaved, id, origin, cutoff, f.copies),
                child@.unsaved.len() == f.copies.len() + 2,
                unfolded(child@.unsaved) == Ok::<ProjectionView, Seq<char>>(child@.projection),
                child@.last_seq == child@.unsaved.len(),
                child@.id == child@.unsaved[0].session_id,
                child@.id != id,
        {
            let ghost e = all[k as int];
            assert(envelope == e);
            if k >= 1 && (k as u64) < cutoff {
                let turn_id = envelope.turn_id;
                let ends_turn = match &envelope.event {
                    SessionEvent::TurnCompleted => true,
                    _ => false,
                };
                let copy = match take_over(envelope, &done, &ends) {
                    Ok(copy) => copy,
                    Err(error) => {
                        assert(fork_stopped(
                            all,
                            done_set,
                            (k + 1) as nat,
                            id,
                            origin,
                            cutoff,
                            error@,
                        ));
                        assert(fork_ends(all, done_set, id, origin, cutoff, error@));
                        return Err(error);
                    },
                };
                let ghost g = fork_fold(all, done_set, (k + 1) as nat)->Ok_0;
                match copy {
                    None => {
                        assert(g == f);
                    },
                    Some(event) => {
                        let ghost before = child@;
                        let ghost given = event;
                        assert(g.copies == f.copies.push((given, turn_id)));
                        match child.append_with_ids(event, None, turn_id) {
                            Ok(seq) => {
                                proof {
                                    lemma_log_grows(before, child@, given, turn_id);
                                    lemma_fork_log_grows(
                                        before,
                                        child@,
                                        given,
                                        turn_id,
                                        id,
                                        origin,
                                        cutoff,
                                        f.copies,
                                    );
                                }
                                if ends_turn {
                                    if let Some(turn) = turn_id {
                                        proof {
                                            assert(seq == fork_seq(f.copies.len()));
                                            lemma_ends_push(ends@, turn, seq);
                                        }
                                        ends.push((turn, seq));
                                    }
                                }
                            },
                            Err(error) => {
                                proof {
                                    lemma_fork_log_longer(
                                        before.unsaved,
                                        id,
                                        origin,
                                        cutoff,
                                        f.copies,
                                        (given, turn_id),
                                    );
                                    lemma_log_refused(
                                        before,
                                        given,
                                        turn_id,
                                        error@,
                                        id,
                                        origin,
                                        cutoff,
                                        g.copies,
                                    );
                                    assert(fork_stopped(
                                        all,
                                        done_set,
                                        (k + 1) as nat,
                                        id,
                                        origin,
                                        cutoff,
                                        error@,
                                    ));
                                    assert(fork_ends(all, done_set, id, origin, cutoff, error@));
                                }
                                return Err(error);
                            },
                        }
                    },
                }
                proof {
                    f = g;
                }
            }
            k += 1;
        }
        Ok(child)
    }
}

/// The view of a session that was made.
pub open spec fn child_view(r: Result<Session, Error>) -> Option<SessionView> {
    match r {
        Ok(s) => Some(s@),
        Err(_) => None,
    }
}

/// Where turns end, as a map: what was noted last counts.
pub open spec fn ends_map(ends: Seq<(TurnId, u64)>) -> Map<TurnId, u64>
    decreases ends.len(),
{
    if ends.len() == 0 {
        Map::empty()
    } else {
        ends_map(ends.drop_last()).insert(ends.last().0, ends.last().1)
    }
}

proof fn lemma_ends_push(ends: Seq<(TurnId, u64)>, turn: TurnId, seq: u64)
    ensures
        ends_map(ends.push((turn, seq))) == ends_map(ends).insert(turn, seq),
{
    assert(ends.push((turn, seq)).drop_last() =~= ends);
}

/// Where a turn ends.
fn find_end(ends: &Vec<(TurnId, u64)>, turn: TurnId) -> (r: Option<u64>)
    ensures
        match r {
            Some(seq) => ends_map(ends@).dom().contains(turn) && ends_map(ends@)[turn] == seq,
            None => !ends_map(ends@).dom().contains(turn),
        },
{
    let mut k: usize = ends.len();
    assert(ends@.take(k as int) =~= ends@);
    while k > 0
        invariant
            k <= ends.len(),
            ends_map(ends@).dom().contains(turn) == ends_map(ends@.take(k as int)).dom().contains(
                turn,
            ),
            ends_map(ends@).dom().contains(turn) ==> ends_map(ends@)[turn] == ends_map(
                ends@.take(k as int),
            )[turn],
        decreases k,
    {
        proof {
            assert(ends@.take(k as int).drop_last() =~= ends@.take(k - 1));
            assert(ends@.take(k as int).last() == ends@[k - 1]);
        }
        if ends[k - 1].0 == turn {
            return Some(ends[k - 1].1);
        }
        k -= 1;
    }
    None
}

/// What a fork takes over of one event.
fn take_over(e: EventEnvelope, done: &Vec<TurnId>, ends: &Vec<(TurnId, u64)>) -> (r: Result<
    Option<SessionEvent>,
    Error,
>)
    ensures
        match copy_of(e, done@.to_set(), ends_map(ends@)) {
            Ok(copy) => r == Ok::<Option<SessionEvent>, Error>(copy),
            Err(m) => r matches Err(error) && error@ == m,
        },
{
    let completed = match e.turn_id {
        Some(id) => has_turn(done, id),
        None => false,
    };
    match e.event {
        SessionEvent::TitleChanged { title } => Ok(Some(SessionEvent::TitleChanged { title })),
        SessionEvent::ModelChanged { model, model_id } => Ok(
            Some(SessionEvent::ModelChanged { model, model_id }),
        ),
        SessionEvent::ContextReset { new_epoch } => Ok(
            Some(SessionEvent::ContextReset { new_epoch }),
        ),
        SessionEvent::ContextCompacted(c) => match find_end(ends, c.through_turn_id) {
            Some(seq) => {
                let mut moved = c;
                moved.through_seq = seq;
                Ok(Some(SessionEvent::ContextCompacted(moved)))
            },
            None => Err(fail("fork cannot map compaction cutoff")),
        },
        SessionEvent::TurnStarted(record) => if completed {
            Ok(Some(SessionEvent::TurnStarted(record)))
        } else {
            Ok(None)
        },
        SessionEvent::AssistantCompleted(record) => if completed {
            Ok(Some(SessionEvent::AssistantCompleted(record)))
        } else {
            Ok(None)
        },
        SessionEvent::ToolStarted(record) => if completed {
            Ok(Some(SessionEvent::ToolStarted(record)))
        } else {
            Ok(None)
        },
        SessionEvent::ToolFinished(record) => if completed {
            Ok(Some(SessionEvent::ToolFinished(record)))
        } else {
            Ok(None)
        },
        SessionEvent::TurnCompleted => if completed {
            Ok(Some(SessionEvent::TurnCompleted))
        } else {
            Ok(None)
        },
        _ => Ok(None),
    }
}

fn has_turn(turns: &Vec<TurnId>, id: TurnId) -> (r: bool)
    ensures
        r == turns@.to_set().contains(id),
{
    let mut i: usize = 0;
    while i < turns.len()
        invariant
            i <= turns.len(),
            forall|j: int| 0 <= j < i ==> turns@[j] != id,
        decreases turns.len() - i,
    {
        if turns[i] == id {
            assert(turns@.contains(id));
            return true;
        }
        i += 1;
    }
    false
}

/// The turns that were completed among the first `k` events.
fn completed_turns(events: &Vec<EventEnvelope>, k: usize) -> (r: Vec<TurnId>)
    requires
        k <= events.len(),
    ensures
        r@.to_set() == completed_among(events@, k as nat),
{
    let mut out: Vec<TurnId> = Vec::new();
    let mut i: usize = 0;
    assert(out@.to_set() =~= Set::<TurnId>::empty());
    while i < k
        invariant
            i <= k <= events.len(),
            out@.to_set() == completed_among(events@, i as nat),
        decreases k - i,
    {
        let completes = match &events[i].event {
            SessionEvent::TurnCompleted => true,
            _ => false,
        };
        if completes {
            if let Some(id) = events[i].turn_id {
                proof {
                    let before = out@;
                    assert(before.push(id).to_set() =~= before.to_set().insert(id)) by {
                        assert forall|x: TurnId| #[trigger]
                            before.push(id).to_set().contains(x) <==> before.to_set().insert(
                                id,
                            ).contains(x) by {
                            if before.contains(x) {
                                let n = choose|n: int| 0 <= n < before.len() && before[n] == x;
                                assert(before.push(id)[n] == x);
                            }
                            if x == id {
                                assert(before.push(id)[before.len() as int] == x);
                            }
                        }
                    }
                }
                out.push(id);
            }
        }
        i += 1;
    }
    out
}

/// The place of the last completed turn.
fn find_completion(events: &Vec<EventEnvelope>) -> (r: Option<u64>)
    ensures
        r == last_completion(events@, events@.len()),
{
    let mut k: usize = events.len();
    while k > 0
        invariant
            k <= events.len(),
            last_completion(events@, events@.len()) == last_completion(events@, k as nat),
        decreases k,
    {
        let completes = match &events[k - 1].event {
            SessionEvent::TurnCompleted => true,
            _ => false,
        };
        if completes {
            return Some(events[k - 1].seq);
        }
        k -= 1;
    }
    None
}

/// Sorts by age, the latest first.
pub fn sort_by_age(found: &Vec<SessionSummary>) -> (r: Vec<SessionSummary>)
    ensures
        summary_views(r@) == newest_first(summary_views(found@)),
{
    let ghost views = summary_views(found@);
    let mut out: Vec<SessionSummary> = Vec::new();
    let mut i: usize = 0;
    assert(summary_views(out@) =~= newest_first(views.take(0)));
    while i < found.len()
        invariant
            i <= found.len(),
            views == summary_views(found@),
            summary_views(out@) == newest_first(views.take(i as int)),
        decreases found.len() - i,
    {
        let summary = found[i].clone();
        let mut k: usize = out.len();
        while k > 0 && out[k - 1].updated_at < summary.updated_at
            invariant
                k <= out.len(),
                forall|j: int|
                    k <= j < out.len() ==> (#[trigger] out@[j]).updated_at < summary.updated_at,
            decreases k,
        {
            k -= 1;
        }
        proof {
            let now = views.take(i + 1);
            assert(now.drop_last() =~= views.take(i as int));
            assert(now.last() == summary@);
            let sorted = summary_views(out@);
            assert forall|j: int| k <= j < sorted.len() implies (#[trigger] sorted[j]).updated_at
                < summary@.updated_at by {
                assert(sorted[j] == out@[j]@);
            }
            assert(k > 0 ==> sorted[k - 1] == out@[k - 1]@);
            lemma_by_age_at(sorted, summary@, k as int);
            assert(summary_views(out@.insert(k as int, summary)) =~= sorted.insert(
                k as int,
                summary@,
            ));
        }
        out.insert(k, summary);
        i += 1;
    }
    assert(views.take(i as int) =~= views);
    out
}

/// The events of an accepted log are numbered from one on.
pub proof fn lemma_numbered(events: Seq<EventEnvelope>)
    requires
        projection_of(events) is Ok,
    ensures
        forall|i: int| 0 <= i < events.len() ==> (#[trigger] events[i]).seq == i + 1,
        forall|k: nat| #[trigger] last_completion(events, k) matches Some(seq) ==> 1 <= seq <= k,
        events.len() > 0,
{
    let tree = crate::session::tree::tree_of(events)->Ok_0;
    let path = crate::session::tree::active_path_of(tree);
    assert forall|i: int| 0 <= i < events.len() implies (#[trigger] events[i]).seq == i + 1 by {
        lemma_fold_prefix(events, path, (i + 1) as nat, events.len());
        crate::session::projection::lemma_fold_bounds(events, path, (i + 1) as nat);
    }
    assert forall|k: nat| #[trigger] last_completion(events, k) matches Some(seq) implies 1 <= last_completion(
        events,
        k,
    )->0 <= k by {
        lemma_completion_place(events, k);
    }
}

proof fn lemma_completion_place(events: Seq<EventEnvelope>, k: nat)
    requires
        forall|i: int| 0 <= i < events.len() ==> (#[trigger] events[i]).seq == i + 1,
    ensures
        last_completion(events, k) matches Some(seq) ==> 1 <= seq <= k,
    decreases k,
{
    if k > 0 && k <= events.len() && !(events[k - 1].event is TurnCompleted) {
        lemma_completion_place(events, (k - 1) as nat);
    }
}

proof fn lemma_fold_prefix(events: Seq<EventEnvelope>, path: Seq<u64>, k: nat, n: nat)
    requires
        1 <= k <= n,
        crate::session::projection::replay_fold(events, path, n) is Ok,
    ensures
        crate::session::projection::replay_fold(events, path, k) is Ok,
    decreases n,
{
    if k < n {
        lemma_fold_prefix(events, path, k, (n - 1) as nat);
    }
}

/// One more event on a log that is accepted.
proof fn lemma_log_grows(
    old: SessionView,
    new: SessionView,
    event: SessionEvent,
    turn: Option<TurnId>,
)
    requires
        old.unsaved.len() > 0,
        unfolded(old.unsaved) == Ok::<ProjectionView, Seq<char>>(old.projection),
        happened(old, new, event, None, turn),
    ensures
        unfolded(new.unsaved) == Ok::<ProjectionView, Seq<char>>(new.projection),
{
    assert(new.unsaved.drop_last() =~= old.unsaved);
}

/// One more event on a fork's log.
proof fn lemma_fork_log_grows(
    old: SessionView,
    new: SessionView,
    event: SessionEvent,
    turn: Option<TurnId>,
    parent: SessionId,
    source: SummaryView,
    cutoff: u64,
    copies: Seq<(SessionEvent, Option<TurnId>)>,
)
    requires
        is_fork_log(old.unsaved, parent, source, cutoff, copies),
        old.unsaved.len() == copies.len() + 2,
        old.last_seq == old.unsaved.len(),
        old.unsaved.len() < u64::MAX,
        old.id == old.unsaved[0].session_id,
        old.stands_at is None,
        happened(old, new, event, None, turn),
    ensures
        is_fork_log(new.unsaved, parent, source, cutoff, copies.push((event, turn))),
{
    let more = copies.push((event, turn));
    assert forall|i: int| 2 <= i < new.unsaved.len() implies (#[trigger] new.unsaved[i]).event
        == more[i - 2].0 && new.unsaved[i].turn_id == more[i - 2].1 by {
        if i < old.unsaved.len() {
            assert(new.unsaved[i] == old.unsaved[i]);
            assert(more[i - 2] == copies[i - 2]);
        }
    }
    assert forall|i: int| 0 <= i < new.unsaved.len() implies is_next(
        #[trigger] new.unsaved[i],
        i,
        new.unsaved[0].session_id,
    ) by {
        assert(new.unsaved[0] == old.unsaved[0]);
        if i < old.unsaved.len() {
            assert(new.unsaved[i] == old.unsaved[i]);
        }
    }
    assert(new.unsaved[0] == old.unsaved[0]);
    assert(new.unsaved[1] == old.unsaved[1]);
}

/// The beginning of a log is also the beginning of a longer one.
proof fn lemma_fork_log_longer(
    log: Seq<EventEnvelope>,
    parent: SessionId,
    source: SummaryView,
    cutoff: u64,
    copies: Seq<(SessionEvent, Option<TurnId>)>,
    more: (SessionEvent, Option<TurnId>),
)
    requires
        is_fork_log(log, parent, source, cutoff, copies),
    ensures
        is_fork_log(log, parent, source, cutoff, copies.push(more)),
{
    let longer = copies.push(more);
    assert forall|i: int| 2 <= i < log.len() implies (#[trigger] log[i]).event == longer[i - 2].0
        && log[i].turn_id == longer[i - 2].1 by {
        assert(longer[i - 2] == copies[i - 2]);
    }
}

/// An event that is refused gives a log that is not accepted.
proof fn lemma_log_refused(
    s: SessionView,
    event: SessionEvent,
    turn: Option<TurnId>,
    message: Seq<char>,
    parent: SessionId,
    source: SummaryView,
    cutoff: u64,
    copies: Seq<(SessionEvent, Option<TurnId>)>,
)
    requires
        is_fork_log(s.unsaved, parent, source, cutoff, copies),
        unfolded(s.unsaved) == Ok::<ProjectionView, Seq<char>>(s.projection),
        s.last_seq == s.unsaved.len(),
        s.unsaved.len() < u64::MAX,
        s.id == s.unsaved[0].session_id,
        s.stands_at is None,
        s.unsaved.len() < copies.len() + 2,
        s.unsaved.len() == 1 ==> event == (SessionEvent::SessionForked {
            parent_session_id: parent,
            through_seq: cutoff,
        }) && turn is None,
        s.unsaved.len() >= 2 ==> copies[s.unsaved.len() - 2] == (event, turn),
        refused(s, event, None, turn, message),
    ensures
        fork_refused(parent, source, cutoff, copies, message),
{
    let e = crate::session::durable::enveloped(s, event, None, turn, 0, 0);
    let log = s.unsaved.push(e);
    assert(log.drop_last() =~= s.unsaved);
    assert(step(s.projection, e) == Err::<ProjectionView, Seq<char>>(message));
    assert(unfolded(log) == Err::<ProjectionView, Seq<char>>(message));
    assert forall|i: int| 2 <= i < log.len() implies (#[trigger] log[i]).event == copies[i - 2].0
        && log[i].turn_id == copies[i - 2].1 by {
        if i < s.unsaved.len() {
            assert(log[i] == s.unsaved[i]);
        }
    }
    assert forall|i: int| 0 <= i < log.len() implies is_next(
        #[trigger] log[i],
        i,
        log[0].session_id,
    ) by {
        assert(log[0] == s.unsaved[0]);
        if i < s.unsaved.len() {
            assert(log[i] == s.unsaved[i]);
        }
    }
    assert(log[0] == s.unsaved[0]);
    if s.unsaved.len() > 1 {
        assert(log[1] == s.unsaved[1]);
    }
    assert(is_fork_log(log, parent, source, cutoff, copies));
}

} // verus!
