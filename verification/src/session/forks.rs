//! What a fork has in common with its parent.
use crate::seqs::{lemma_slot, lemma_slot_is, slot_of};
use crate::session::coherence::{
    ascending, coherent, cut, every_event_keeps_coherence, lemma_cut, lemma_cut_is,
    lemma_messages_after, lemma_turns_after,
};
use crate::session::conversation::lemma_unfolded_coherent;
use crate::session::durable::SessionView;
use crate::session::event::{EventEnvelope, SessionEvent, SCHEMA_VERSION};
use crate::session::laws::{is_bad_ending, is_ending, lemma_line_projection, unbranched};
use crate::session::manager::{
    completed_among, copy_of, fork_fold, fork_seq, fork_step, fork_stopped, forked, is_fork_log,
    is_next, unfolded, ForkView,
};
use crate::session::model::{SessionId, SummaryView, TurnId};
use crate::session::projection::{
    asked_ids, bare, boundaries, context_messages, first_step, projection_of, step, ActiveView,
    ProjectionView, StoredView, TurnView,
};
use vstd::prelude::*;

verus! {

/// Both sessions send the model the same completed turns, in the same parts.
pub open spec fn alike(p: ProjectionView, c: ProjectionView) -> bool {
    &&& c.compaction_summary == p.compaction_summary
    &&& bare(c.committed) == bare(p.committed)
    &&& c.completed.len() == p.completed.len()
    &&& forall|i: int|
        0 <= i < p.completed.len() ==> (#[trigger] p.completed[i]).id == c.completed[i].id && cut(
            p.committed,
            p.completed[i].completed_seq,
        ) == cut(c.committed, c.completed[i].completed_seq)
    &&& c.meta.context_epoch == p.meta.context_epoch
    &&& c.meta.completed_turns == p.meta.completed_turns
}

/// Both turns hold the same so far.
pub open spec fn same_turn(t: ActiveView, u: ActiveView) -> bool {
    &&& u.id == t.id
    &&& bare(u.messages) == bare(t.messages)
    &&& u.unresolved == t.unresolved
    &&& u.started == t.started
}

/// The parent runs a turn that is going to be completed.
pub open spec fn promising(p: ProjectionView, done: Set<TurnId>) -> bool {
    p.active matches Some(t) && done.contains(t.id)
}

/// The fork runs a turn exactly where the parent runs one that is going to be
/// completed, and then it is the same turn.
pub open spec fn shadowed(p: ProjectionView, c: ProjectionView, done: Set<TurnId>) -> bool {
    if promising(p, done) {
        c.active matches Some(u) && same_turn(p.active->0, u)
    } else {
        c.active is None
    }
}

/// The fork runs a turn that its parent has given up. No other turn can begin
/// in it any more.
pub open spec fn stranded(p: ProjectionView, c: ProjectionView, done: Set<TurnId>) -> bool {
    c.active is Some && !promising(p, done)
}

/// No later turn has the name of the `i`-th.
pub open spec fn latest(turns: Seq<TurnView>, i: int) -> bool {
    forall|j: int| i < j < turns.len() ==> (#[trigger] turns[j]).id != turns[i].id
}

/// The fork knows where the turns end in it.
pub open spec fn ends_known(
    p: ProjectionView,
    c: ProjectionView,
    ends: Map<TurnId, u64>,
) -> bool {
    forall|i: int|
        0 <= i < p.completed.len() && latest(p.completed, i) ==> ends.dom().contains(
            (#[trigger] p.completed[i]).id,
        ) && ends[p.completed[i].id] == c.completed[i].completed_seq
}

/// The log says of every completed turn that it was completed.
pub open spec fn recorded(events: Seq<EventEnvelope>, k: nat, p: ProjectionView) -> bool {
    forall|i: int|
        0 <= i < p.completed.len() ==> {
            let q = (#[trigger] p.completed[i]).completed_seq;
            &&& 1 <= q <= k
            &&& events[q - 1].event is TurnCompleted
            &&& events[q - 1].turn_id == Some(p.completed[i].id)
        }
}

/// Every compaction goes up to the last completion of the turn that it names.
pub open spec fn compactions_are_plain(events: Seq<EventEnvelope>, k: nat) -> bool {
    forall|i: int, j: int|
        0 <= i < j < k && (#[trigger] events[i]).event is TurnCompleted && ((
        #[trigger] events[j]).event matches SessionEvent::ContextCompacted(c) && events[i].turn_id
            == Some(c.through_turn_id)) ==> events[i].seq <= (
        events[j].event->ContextCompacted_0).through_seq
}

/// What the fork and its parent have in common after an event.
pub open spec fn related(
    p: ProjectionView,
    c: ProjectionView,
    done: Set<TurnId>,
    ends: Map<TurnId, u64>,
) -> bool {
    stranded(p, c, done) || (alike(p, c) && shadowed(p, c, done) && ends_known(p, c, ends))
}

proof fn lemma_cut_concat(a: Seq<StoredView>, b: Seq<StoredView>, seq: u64)
    requires
        ascending(a),
        ascending(a + b),
        forall|i: int| 0 <= i < b.len() ==> (#[trigger] b[i]).seq > seq,
    ensures
        cut(a + b, seq) == cut(a, seq),
{
    let n = cut(a, seq);
    let all = a + b;
    lemma_cut(a, seq);
    assert forall|i: int| 0 <= i < n implies (#[trigger] all[i]).seq <= seq by {
        assert(all[i] == a[i]);
    }
    assert forall|i: int| n <= i < all.len() implies (#[trigger] all[i]).seq > seq by {
        if i < a.len() {
            assert(all[i] == a[i]);
        } else {
            assert(all[i] == b[i - a.len()]);
        }
    }
    lemma_cut_is(all, seq, n);
}

proof fn lemma_cut_skip(a: Seq<StoredView>, seq: u64, later: u64)
    requires
        ascending(a),
        seq <= later,
    ensures
        0 <= cut(a, seq) <= cut(a, later) <= a.len(),
        cut(a.skip(cut(a, seq)), later) == cut(a, later) - cut(a, seq),
{
    let n = cut(a, seq);
    let m = cut(a, later);
    let kept = a.skip(n);
    lemma_cut(a, seq);
    lemma_cut(a, later);
    if m < n {
        assert(a[m].seq > later);
        assert(a[m].seq <= seq);
    }
    assert forall|i: int, j: int| 0 <= i < j < kept.len() implies (#[trigger] kept[i]).seq < (
    #[trigger] kept[j]).seq by {
        assert(kept[i] == a[i + n] && kept[j] == a[j + n]);
    }
    assert forall|i: int| 0 <= i < m - n implies (#[trigger] kept[i]).seq <= later by {
        assert(kept[i] == a[i + n]);
    }
    assert forall|i: int| m - n <= i < kept.len() implies (#[trigger] kept[i]).seq > later by {
        assert(kept[i] == a[i + n]);
    }
    lemma_cut_is(kept, later, m - n);
}

/// The cuts of a session that completes a turn.
proof fn lemma_cuts_kept(s: ProjectionView, e: EventEnvelope)
    requires
        coherent(s),
        e.seq != 1,
        e.event is TurnCompleted,
        step(s, e) is Ok,
    ensures
        ({
            let n = step(s, e)->Ok_0;
            &&& forall|i: int|
                0 <= i < s.completed.len() ==> n.completed[i] == #[trigger] s.completed[i] && cut(
                    n.committed,
                    s.completed[i].completed_seq,
                ) == cut(s.committed, s.completed[i].completed_seq)
            &&& cut(n.committed, e.seq) == n.committed.len()
        }),
{
    let n = step(s, e)->Ok_0;
    let turn = s.active->0;
    every_event_keeps_coherence(s, e);
    assert forall|i: int| 0 <= i < s.completed.len() implies n.completed[i]
        == #[trigger] s.completed[i] && cut(n.committed, s.completed[i].completed_seq) == cut(
        s.committed,
        s.completed[i].completed_seq,
    ) by {
        assert forall|j: int| 0 <= j < turn.messages.len() implies (
        #[trigger] turn.messages[j]).seq > s.completed[i].completed_seq by {
            assert(s.completed[i].completed_seq < turn.messages[j].seq);
        }
        lemma_cut_concat(s.committed, turn.messages, s.completed[i].completed_seq);
    }
    assert forall|j: int| 0 <= j < n.committed.len() implies (
    #[trigger] n.committed[j]).seq <= e.seq by {
        assert(n.committed[j].seq <= n.meta.last_seq);
    }
    lemma_cut_is(n.committed, e.seq, n.committed.len() as int);
}

proof fn lemma_completed_together(
    p: ProjectionView,
    c: ProjectionView,
    e: EventEnvelope,
    ce: EventEnvelope,
    done: Set<TurnId>,
    ends: Map<TurnId, u64>,
)
    requires
        coherent(p),
        coherent(c),
        related(p, c, done, ends),
        e.seq != 1,
        ce.seq != 1,
        e.event is TurnCompleted,
        ce.event is TurnCompleted,
        e.turn_id is Some,
        done.contains(e.turn_id->0),
        step(p, e) is Ok,
        step(c, ce) is Ok,
    ensures
        ({
            let p2 = step(p, e)->Ok_0;
            let c2 = step(c, ce)->Ok_0;
            &&& alike(p2, c2)
            &&& shadowed(p2, c2, done)
            &&& ends_known(p2, c2, ends.insert(e.turn_id->0, ce.seq))
        }),
{
    let p2 = step(p, e)->Ok_0;
    let c2 = step(c, ce)->Ok_0;
    lemma_cuts_kept(p, e);
    lemma_cuts_kept(c, ce);
    assert(bare(p2.committed) =~= bare(p.committed) + bare(p.active->0.messages));
    assert(bare(c2.committed) =~= bare(c.committed) + bare(c.active->0.messages));
    assert(bare(p2.committed).len() == p2.committed.len());
    assert(bare(c2.committed).len() == c2.committed.len());
    let n = p.completed.len() as int;
    assert forall|i: int| 0 <= i < p2.completed.len() implies (#[trigger] p2.completed[i]).id
        == c2.completed[i].id && cut(p2.committed, p2.completed[i].completed_seq) == cut(
        c2.committed,
        c2.completed[i].completed_seq,
    ) by {
        if i < n {
            assert(p2.completed[i] == p.completed[i]);
            assert(c2.completed[i] == c.completed[i]);
        }
    }
    let more = ends.insert(e.turn_id->0, ce.seq);
    assert forall|i: int| 0 <= i < p2.completed.len() && latest(p2.completed, i) implies more.dom()
        .contains((#[trigger] p2.completed[i]).id) && more[p2.completed[i].id]
        == c2.completed[i].completed_seq by {
        if i < n {
            assert(p2.completed[n].id != p2.completed[i].id);
            assert(p2.completed[i] == p.completed[i]);
            assert(latest(p.completed, i)) by {
                assert forall|j: int| i < j < n implies (#[trigger] p.completed[j]).id
                    != p.completed[i].id by {
                    assert(p2.completed[j] == p.completed[j]);
                }
            }
        }
    }
}

/// What a compaction keeps of a session.
proof fn lemma_kept(s: ProjectionView, e: EventEnvelope, k: int)
    requires
        coherent(s),
        e.seq != 1,
        e.event is ContextCompacted,
        step(s, e) is Ok,
        0 <= k < s.completed.len(),
        s.completed[k].id == (e.event->ContextCompacted_0).through_turn_id,
        s.completed[k].completed_seq == (e.event->ContextCompacted_0).through_seq,
    ensures
        ({
            let n = step(s, e)->Ok_0;
            let at = cut(s.committed, s.completed[k].completed_seq);
            &&& 0 <= at <= s.committed.len()
            &&& n.committed == s.committed.skip(at)
            &&& n.completed == s.completed.skip(k + 1)
            &&& forall|i: int|
                0 <= i < n.completed.len() ==> cut(
                    n.committed,
                    (#[trigger] n.completed[i]).completed_seq,
                ) == cut(s.committed, s.completed[i + k + 1].completed_seq) - at
        }),
{
    let n = step(s, e)->Ok_0;
    let seq = s.completed[k].completed_seq;
    lemma_turns_after(s.completed, k);
    lemma_messages_after(s.committed, seq);
    lemma_cut(s.committed, seq);
    assert forall|i: int| 0 <= i < n.completed.len() implies cut(
        n.committed,
        (#[trigger] n.completed[i]).completed_seq,
    ) == cut(s.committed, s.completed[i + k + 1].completed_seq) - cut(s.committed, seq) by {
        assert(n.completed[i] == s.completed[i + k + 1]);
        assert(s.completed[k].completed_seq < s.completed[i + k + 1].completed_seq);
        lemma_cut_skip(s.committed, seq, s.completed[i + k + 1].completed_seq);
    }
}

/// Both sessions keep the same part of the same turns.
proof fn lemma_tails_alike(
    p: ProjectionView,
    c: ProjectionView,
    p2: ProjectionView,
    c2: ProjectionView,
    ends: Map<TurnId, u64>,
    k: int,
    at: int,
)
    requires
        alike(p, c),
        ends_known(p, c, ends),
        0 <= k < p.completed.len(),
        0 <= at <= p.committed.len(),
        p2.committed == p.committed.skip(at),
        c2.committed == c.committed.skip(at),
        p2.completed == p.completed.skip(k + 1),
        c2.completed == c.completed.skip(k + 1),
        forall|i: int|
            0 <= i < p2.completed.len() ==> cut(
                p2.committed,
                (#[trigger] p2.completed[i]).completed_seq,
            ) == cut(p.committed, p.completed[i + k + 1].completed_seq) - at,
        forall|i: int|
            0 <= i < c2.completed.len() ==> cut(
                c2.committed,
                (#[trigger] c2.completed[i]).completed_seq,
            ) == cut(c.committed, c.completed[i + k + 1].completed_seq) - at,
    ensures
        bare(p2.committed) == bare(c2.committed),
        p2.completed.len() == c2.completed.len(),
        forall|i: int|
            0 <= i < p2.completed.len() ==> (#[trigger] p2.completed[i]).id == c2.completed[i].id
                && cut(p2.committed, p2.completed[i].completed_seq) == cut(
                c2.committed,
                c2.completed[i].completed_seq,
            ),
        ends_known(p2, c2, ends),
{
    assert(bare(c.committed).len() == c.committed.len());
    assert(bare(p.committed).len() == p.committed.len());
    assert(bare(p2.committed) =~= bare(p.committed).skip(at));
    assert(bare(c2.committed) =~= bare(c.committed).skip(at));
    assert forall|i: int| 0 <= i < p2.completed.len() implies (#[trigger] p2.completed[i]).id
        == c2.completed[i].id && cut(p2.committed, p2.completed[i].completed_seq) == cut(
        c2.committed,
        c2.completed[i].completed_seq,
    ) by {
        assert(p2.completed[i] == p.completed[i + k + 1]);
        assert(c2.completed[i] == c.completed[i + k + 1]);
    }
    assert forall|i: int| 0 <= i < p2.completed.len() && latest(p2.completed, i) implies ends.dom()
        .contains((#[trigger] p2.completed[i]).id) && ends[p2.completed[i].id]
        == c2.completed[i].completed_seq by {
        assert(p2.completed[i] == p.completed[i + k + 1]);
        assert(c2.completed[i] == c.completed[i + k + 1]);
        assert(latest(p.completed, i + k + 1)) by {
            assert forall|j: int| i + k + 1 < j < p.completed.len() implies (
            #[trigger] p.completed[j]).id != p.completed[i + k + 1].id by {
                assert(p2.completed[j - k - 1] == p.completed[j]);
            }
        }
    }
}

proof fn lemma_compacted_together(
    p: ProjectionView,
    c: ProjectionView,
    e: EventEnvelope,
    ce: EventEnvelope,
    ends: Map<TurnId, u64>,
    k: int,
)
    requires
        coherent(p),
        coherent(c),
        alike(p, c),
        ends_known(p, c, ends),
        e.seq != 1,
        ce.seq != 1,
        e.event is ContextCompacted,
        ce.event is ContextCompacted,
        ({
            let r = e.event->ContextCompacted_0;
            let t = ce.event->ContextCompacted_0;
            &&& t.summary == r.summary
            &&& t.through_turn_id == r.through_turn_id
            &&& t.through_seq == ends[r.through_turn_id]
            &&& 0 <= k < p.completed.len()
            &&& p.completed[k].id == r.through_turn_id
            &&& p.completed[k].completed_seq == r.through_seq
            &&& latest(p.completed, k)
        }),
        step(p, e) is Ok,
        step(c, ce) is Ok,
    ensures
        ({
            let p2 = step(p, e)->Ok_0;
            let c2 = step(c, ce)->Ok_0;
            alike(p2, c2) && ends_known(p2, c2, ends)
        }),
{
    let p2 = step(p, e)->Ok_0;
    let c2 = step(c, ce)->Ok_0;
    assert(c.completed[k].completed_seq == ends[p.completed[k].id]);
    lemma_kept(p, e, k);
    lemma_kept(c, ce, k);
    let at = cut(p.committed, p.completed[k].completed_seq);
    assert(bare(c.committed).len() == c.committed.len());
    lemma_tails_alike(p, c, p2, c2, ends, k, at);
}

/// An event that the fork takes over leaves the two with the same in common.
proof fn lemma_taken_over(
    p: ProjectionView,
    c: ProjectionView,
    e: EventEnvelope,
    ce: EventEnvelope,
    done: Set<TurnId>,
    f: ForkView,
)
    requires
        coherent(p),
        coherent(c),
        related(p, c, done, f.ends),
        e.seq != 1,
        ce.seq != 1,
        ce.turn_id == e.turn_id,
        ce.seq == fork_seq(f.copies.len()),
        copy_of(e, done, f.ends) == Ok::<Option<SessionEvent>, Seq<char>>(Some(ce.event)),
        e.event is TurnCompleted ==> e.turn_id is Some && done.contains(e.turn_id->0),
        e.event is ContextCompacted ==> {
            let r = e.event->ContextCompacted_0;
            forall|i: int|
                0 <= i < p.completed.len() && (#[trigger] p.completed[i]).id == r.through_turn_id
                    ==> p.completed[i].completed_seq <= r.through_seq
        },
        step(p, e) is Ok,
        step(c, ce) is Ok,
    ensures
        ({
            let p2 = step(p, e)->Ok_0;
            let c2 = step(c, ce)->Ok_0;
            let g = fork_step(f, e, done)->Ok_0;
            &&& related(p2, c2, done, g.ends)
            &&& e.event is TurnCompleted ==> alike(p2, c2) && p2.active is None && c2.active is None
        }),
{
    let p2 = step(p, e)->Ok_0;
    let c2 = step(c, ce)->Ok_0;
    match e.event {
        SessionEvent::TurnCompleted => {
            lemma_completed_together(p, c, e, ce, done, f.ends);
        },
        SessionEvent::ContextCompacted(r) => {
            let b = boundaries(p.completed);
            let k = slot_of(b, (r.through_turn_id, r.through_seq));
            lemma_slot(b, (r.through_turn_id, r.through_seq));
            assert(b[k] == (p.completed[k].id, p.completed[k].completed_seq));
            assert(latest(p.completed, k)) by {
                assert forall|j: int| k < j < p.completed.len() implies (
                #[trigger] p.completed[j]).id != p.completed[k].id by {
                    assert(p.completed[k].completed_seq < p.completed[j].completed_seq);
                }
            }
            lemma_compacted_together(p, c, e, ce, f.ends, k);
        },
        SessionEvent::TurnStarted(_) => {
            assert(bare(p2.active->0.messages) =~= bare(c2.active->0.messages));
        },
        SessionEvent::AssistantCompleted(_) => {
            let m = p2.active->0.messages.last();
            let n = c2.active->0.messages.last();
            assert(bare(p2.active->0.messages) =~= bare(p.active->0.messages).push(m.message));
            assert(bare(c2.active->0.messages) =~= bare(c.active->0.messages).push(n.message));
        },
        SessionEvent::ToolFinished(_) => {
            let m = p2.active->0.messages.last();
            let n = c2.active->0.messages.last();
            assert(bare(p2.active->0.messages) =~= bare(p.active->0.messages).push(m.message));
            assert(bare(c2.active->0.messages) =~= bare(c.active->0.messages).push(n.message));
        },
        SessionEvent::ContextReset { new_epoch } => {
            assert(bare(p2.committed) =~= bare(c2.committed));
        },
        _ => {},
    }
}

/// An event that the fork leaves out leaves the two with the same in common.
proof fn lemma_left_out(
    p: ProjectionView,
    c: ProjectionView,
    e: EventEnvelope,
    done: Set<TurnId>,
    ends: Map<TurnId, u64>,
)
    requires
        related(p, c, done, ends),
        e.seq != 1,
        copy_of(e, done, ends) == Ok::<Option<SessionEvent>, Seq<char>>(None),
        e.event is TurnCompleted ==> e.turn_id is Some && done.contains(e.turn_id->0),
        !(e.event is BranchSummary),
        step(p, e) is Ok,
    ensures
        related(step(p, e)->Ok_0, c, done, ends),
{
    let p2 = step(p, e)->Ok_0;
    assert(p2.committed == p.committed);
    assert(p2.completed == p.completed);
}

proof fn lemma_done(events: Seq<EventEnvelope>, n: nat, k: int)
    requires
        0 <= k < n <= events.len(),
        events[k].event is TurnCompleted,
        events[k].turn_id is Some,
    ensures
        completed_among(events, n).contains(events[k].turn_id->0),
    decreases n,
{
    if k < n - 1 {
        lemma_done(events, (n - 1) as nat, k);
    }
}

/// What a fork has taken over stays.
proof fn lemma_copies_stay(events: Seq<EventEnvelope>, done: Set<TurnId>, k: nat, n: nat)
    requires
        k <= n,
        fork_fold(events, done, n) is Ok,
    ensures
        fork_fold(events, done, k) is Ok,
        ({
            let few = fork_fold(events, done, k)->Ok_0.copies;
            let all = fork_fold(events, done, n)->Ok_0.copies;
            &&& few.len() <= all.len()
            &&& few == all.take(few.len() as int)
        }),
    decreases n,
{
    let all = fork_fold(events, done, n)->Ok_0.copies;
    if k < n {
        if n > 1 {
            lemma_copies_stay(events, done, k, (n - 1) as nat);
            let few = fork_fold(events, done, k)->Ok_0.copies;
            let most = fork_fold(events, done, (n - 1) as nat)->Ok_0.copies;
            assert(few =~= all.take(few.len() as int)) by {
                assert forall|i: int| 0 <= i < few.len() implies few[i] == all[i] by {
                    assert(few[i] == most.take(few.len() as int)[i]);
                }
            }
        }
    } else {
        assert(all =~= all.take(all.len() as int));
    }
}

/// The beginning of an accepted log is accepted.
pub proof fn lemma_unfolded_begins(events: Seq<EventEnvelope>, k: nat)
    requires
        1 <= k <= events.len(),
        unfolded(events) is Ok,
    ensures
        unfolded(events.take(k as int)) is Ok,
        k > 1 ==> unfolded(events.take(k as int)) == step(
            unfolded(events.take(k - 1))->Ok_0,
            events[k - 1],
        ),
        k > 1 ==> unfolded(events.take(k - 1)) is Ok,
    decreases events.len(),
{
    let now = events.take(k as int);
    if k < events.len() {
        let before = events.drop_last();
        lemma_unfolded_begins(before, k);
        assert(before.take(k as int) =~= now);
        assert(before.take(k - 1) =~= events.take(k - 1));
    } else {
        assert(now =~= events);
        assert(now.drop_last() =~= events.take(k - 1));
    }
}

proof fn lemma_recorded(events: Seq<EventEnvelope>, k: nat, p: ProjectionView)
    requires
        1 < k <= events.len(),
        events[k - 1].seq == k,
        coherent(p),
        recorded(events, (k - 1) as nat, p),
        step(p, events[k - 1]) is Ok,
    ensures
        recorded(events, k, step(p, events[k - 1])->Ok_0),
{
    let e = events[k - 1];
    let n = step(p, e)->Ok_0;
    if let SessionEvent::ContextCompacted(r) = e.event {
        let b = boundaries(p.completed);
        let at = slot_of(b, (r.through_turn_id, r.through_seq));
        lemma_slot(b, (r.through_turn_id, r.through_seq));
        assert(b[at] == (p.completed[at].id, p.completed[at].completed_seq));
        lemma_kept(p, e, at);
        assert forall|i: int| 0 <= i < n.completed.len() implies (#[trigger] n.completed[i])
            == p.completed[i + at + 1] by {}
    } else {
        assert forall|i: int| 0 <= i < n.completed.len() && i < p.completed.len() implies (
        #[trigger] n.completed[i]) == p.completed[i] by {}
    }
}

/// A fork's log up to what it has taken over of its parent's first events.
pub open spec fn begun(log: Seq<EventEnvelope>, f: ForkView) -> Seq<EventEnvelope> {
    log.take((f.copies.len() + 2) as int)
}

/// The fork's log says of each copy what the copy is.
pub open spec fn follows(log: Seq<EventEnvelope>, f: ForkView) -> bool {
    &&& log.len() == f.copies.len() + 2
    &&& log[1].event is SessionForked
    &&& forall|i: int| 0 <= i < log.len() ==> (#[trigger] log[i]).seq == i + 1
    &&& forall|i: int|
        2 <= i < log.len() ==> (#[trigger] log[i]).event == f.copies[i - 2].0 && log[i].turn_id
            == f.copies[i - 2].1
}

/// Event by event, the fork keeps up with its parent.
proof fn lemma_keeps_up(
    events: Seq<EventEnvelope>,
    n: nat,
    log: Seq<EventEnvelope>,
    k: nat,
)
    requires
        1 <= k <= n <= events.len(),
        unbranched(events.take(n as int)),
        compactions_are_plain(events, n),
        unfolded(events.take(n as int)) is Ok,
        fork_fold(events, completed_among(events, n), n) is Ok,
        follows(log, fork_fold(events, completed_among(events, n), n)->Ok_0),
        unfolded(log) is Ok,
    ensures
        unfolded(events.take(k as int)) is Ok,
        fork_fold(events, completed_among(events, n), k) is Ok,
        ({
            let done = completed_among(events, n);
            let f = fork_fold(events, done, k)->Ok_0;
            let p = unfolded(events.take(k as int))->Ok_0;
            &&& f.copies.len() + 2 <= log.len()
            &&& unfolded(begun(log, f)) is Ok
            &&& {
                let c = unfolded(begun(log, f))->Ok_0;
                &&& recorded(events, k, p)
                &&& related(p, c, done, f.ends)
                &&& k > 1 && events[k - 1].event is TurnCompleted ==> alike(p, c)
                    && p.active is None && c.active is None
            }
        }),
    decreases k,
{
    let done = completed_among(events, n);
    let all = events.take(n as int);
    let whole = fork_fold(events, done, n)->Ok_0;
    lemma_copies_stay(events, done, k, n);
    lemma_unfolded_begins(all, k);
    assert(all.take(k as int) =~= events.take(k as int));
    let g = fork_fold(events, done, k)->Ok_0;
    lemma_unfolded_begins(log, g.copies.len() + 2);
    let p2 = unfolded(events.take(k as int))->Ok_0;
    let c2 = unfolded(begun(log, g))->Ok_0;
    if k == 1 {
        lemma_unfolded_begins(log, 1);
        assert(events.take(1)[0] == events[0]);
        assert(log.take(1)[0] == log[0]);
        assert(log[1].seq == 2);
        assert(bare(p2.committed) =~= bare(c2.committed));
    } else {
        lemma_keeps_up(events, n, log, (k - 1) as nat);
        let f = fork_fold(events, done, (k - 1) as nat)->Ok_0;
        let p = unfolded(events.take(k - 1))->Ok_0;
        let c = unfolded(begun(log, f))->Ok_0;
        let e = events[k - 1];
        assert(all[k - 1] == e);
        assert(e.seq == k);
        assert(all.take(k - 1) =~= events.take(k - 1));
        assert(step(p, e) == Ok::<ProjectionView, Seq<char>>(p2));
        lemma_unfolded_coherent(events.take(k - 1));
        lemma_unfolded_coherent(begun(log, f));
        lemma_recorded(events, k, p);
        if e.event is TurnCompleted {
            lemma_done(events, n, k - 1);
        }
        match copy_of(e, done, f.ends)->Ok_0 {
            None => {
                lemma_left_out(p, c, e, done, f.ends);
            },
            Some(event) => {
                let m = f.copies.len() as int;
                let ce = log[m + 2];
                assert(g.copies[m] == (event, e.turn_id));
                assert(whole.copies[m] == whole.copies.take(g.copies.len() as int)[m]);
                assert(ce.event == event && ce.turn_id == e.turn_id);
                assert(ce.seq == m + 3);
                assert(log.take(m + 2) == begun(log, f));
                assert(step(c, ce) == Ok::<ProjectionView, Seq<char>>(c2));
                if let SessionEvent::ContextCompacted(r) = e.event {
                    assert forall|i: int|
                        0 <= i < p.completed.len() && (#[trigger] p.completed[i]).id
                            == r.through_turn_id implies p.completed[i].completed_seq
                        <= r.through_seq by {
                        let q = p.completed[i].completed_seq;
                        assert(all[q - 1] == events[q - 1]);
                        assert(events[q - 1].seq == q);
                    }
                }
                lemma_taken_over(p, c, e, ce, done, f);
            },
        }
    }
}

/// A fork begins with exactly what the model was sent when its parent was at
/// the cutoff, counts the same turns and stands in the same context. The parent
/// is a session that was only continued, and none of its compactions names a
/// turn that was completed once more since.
pub proof fn a_fork_begins_with_the_context_of_its_parent(
    events: Seq<EventEnvelope>,
    parent: SessionId,
    source: SummaryView,
    cutoff: u64,
    child: SessionView,
)
    requires
        1 < cutoff <= events.len() < u64::MAX,
        events[cutoff - 1].event is TurnCompleted,
        unbranched(events.take(cutoff as int)),
        compactions_are_plain(events, cutoff as nat),
        projection_of(events.take(cutoff as int)) is Ok,
        forked(events, parent, source, cutoff, Some(child), None),
    ensures
        ({
            let then = projection_of(events.take(cutoff as int))->Ok_0;
            &&& context_messages(child.projection) == context_messages(then)
            &&& child.projection.meta.completed_turns == then.meta.completed_turns
            &&& child.projection.meta.context_epoch == then.meta.context_epoch
        }),
{
    let done = completed_among(events, cutoff as nat);
    let f = fork_fold(events, done, cutoff as nat)->Ok_0;
    let log = child.unsaved;
    let before = events.take(cutoff as int);
    assert(is_fork_log(log, parent, source, cutoff, f.copies));
    lemma_line_projection(before);
    lemma_keeps_up(events, cutoff as nat, log, cutoff as nat);
    assert(begun(log, f) =~= log);
    let then = projection_of(before)->Ok_0;
    assert(context_messages(child.projection) =~= context_messages(then));
}

// ---------------------------------------------------------------------------
// When a fork succeeds.
// ---------------------------------------------------------------------------

/// No two turns of the first `n` events have the same name.
pub open spec fn turns_begin_once(events: Seq<EventEnvelope>, n: nat) -> bool {
    forall|i: int, j: int|
        0 <= i < j < n && (#[trigger] events[i]).event is TurnStarted && (
        #[trigger] events[j]).event is TurnStarted ==> events[i].turn_id != events[j].turn_id
}

/// A turn began among the first `k` events.
pub open spec fn has_begun(events: Seq<EventEnvelope>, k: nat, id: TurnId) -> bool {
    exists|i: int|
        0 <= i < k && (#[trigger] events[i]).event is TurnStarted && events[i].turn_id == Some(id)
}

/// A turn ended, well or badly, at the `i`-th event.
pub open spec fn ends_at(events: Seq<EventEnvelope>, i: int, id: TurnId) -> bool {
    is_ending(events[i].event) && events[i].turn_id == Some(id)
}

/// A turn ended among the first `k` events.
pub open spec fn has_ended(events: Seq<EventEnvelope>, k: nat, id: TurnId) -> bool {
    exists|i: int| 0 <= i < k && #[trigger] ends_at(events, i, id)
}

/// Turns that begin once end at most once.
proof fn lemma_turns_end_once(events: Seq<EventEnvelope>, k: nat)
    requires
        1 <= k <= events.len(),
        unbranched(events.take(k as int)),
        unfolded(events.take(k as int)) is Ok,
        turns_begin_once(events, k),
    ensures
        unfolded(events.take(k as int))->Ok_0.active matches Some(t) ==> has_begun(events, k, t.id)
            && !has_ended(events, k, t.id),
        forall|id: TurnId| #[trigger] has_ended(events, k, id) ==> has_begun(events, k, id),
        forall|i: int, j: int, id: TurnId|
            0 <= i < j < k && #[trigger] ends_at(events, i, id) ==> !(#[trigger] ends_at(
                events,
                j,
                id,
            )),
    decreases k,
{
    let now = events.take(k as int);
    if k == 1 {
        assert(now[0] == events[0]);
        assert(events[0].event is SessionCreated);
        assert forall|id: TurnId| !(#[trigger] has_ended(events, k, id)) by {
            if has_ended(events, k, id) {
                let i = choose|i: int| 0 <= i < k && #[trigger] ends_at(events, i, id);
                assert(i == 0);
            }
        }
    } else {
        let before = events.take(k - 1);
        let e = events[k - 1];
        assert(now.drop_last() =~= before);
        assert(now.last() == e);
        assert(now[k - 1] == e);
        assert(unbranched(before)) by {
            assert forall|i: int| 0 <= i < before.len() implies before[i] == now[i] by {}
            assert(before[0] == now[0]);
        }
        lemma_turns_end_once(events, (k - 1) as nat);
        let p = unfolded(before)->Ok_0;
        let n = unfolded(now)->Ok_0;
        assert(step(p, e) == Ok::<ProjectionView, Seq<char>>(n));
        assert(e.seq == k);
        assert forall|id: TurnId| has_begun(events, (k - 1) as nat, id) implies #[trigger] has_begun(
            events,
            k,
            id,
        ) by {
            let i = choose|i: int|
                0 <= i < k - 1 && (#[trigger] events[i]).event is TurnStarted && events[i].turn_id
                    == Some(id);
            assert(events[i].turn_id == Some(id));
        }
        assert forall|id: TurnId| #[trigger] has_ended(events, k, id) && !ends_at(
            events,
            k - 1,
            id,
        ) implies has_ended(events, (k - 1) as nat, id) by {
            let i = choose|i: int| 0 <= i < k && #[trigger] ends_at(events, i, id);
            assert(ends_at(events, i, id));
        }
        if is_ending(e.event) {
            assert(p.active is Some && e.turn_id == Some(p.active->0.id));
        }
        if n.active is Some {
            let id = n.active->0.id;
            if e.event is TurnStarted {
                assert(events[k - 1].turn_id == Some(id));
                assert(has_begun(events, k, id));
                if has_ended(events, k, id) {
                    assert(!ends_at(events, k - 1, id));
                    assert(has_begun(events, (k - 1) as nat, id));
                    let i = choose|i: int|
                        0 <= i < k - 1 && (#[trigger] events[i]).event is TurnStarted
                            && events[i].turn_id == Some(id);
                    assert(events[i].turn_id != events[k - 1].turn_id);
                }
            } else {
                assert(p.active is Some && p.active->0.id == id);
                assert(!is_ending(e.event));
                assert(!ends_at(events, k - 1, id));
            }
        }
        assert forall|id: TurnId| #[trigger] has_ended(events, k, id) implies has_begun(
            events,
            k,
            id,
        ) by {
            if !ends_at(events, k - 1, id) {
                assert(has_ended(events, (k - 1) as nat, id));
            }
        }
        assert forall|i: int, j: int, id: TurnId|
            0 <= i < j < k && #[trigger] ends_at(events, i, id) implies !(#[trigger] ends_at(
            events,
            j,
            id,
        )) by {
            if j == k - 1 && ends_at(events, j, id) {
                assert(ends_at(events, i, id));
                assert(has_ended(events, (k - 1) as nat, id));
            }
        }
    }
}

/// What counts as completed was completed somewhere.
proof fn lemma_done_somewhere(events: Seq<EventEnvelope>, n: nat, id: TurnId)
    requires
        n <= events.len(),
        completed_among(events, n).contains(id),
    ensures
        exists|j: int|
            0 <= j < n && #[trigger] ends_at(events, j, id) && events[j].event is TurnCompleted,
    decreases n,
{
    if n > 0 {
        if completed_among(events, (n - 1) as nat).contains(id) {
            lemma_done_somewhere(events, (n - 1) as nat, id);
        } else {
            assert(ends_at(events, n - 1, id));
        }
    }
}

/// The turns that a session still holds are all different.
proof fn lemma_all_latest(events: Seq<EventEnvelope>, n: nat, k: nat, p: ProjectionView, i: int)
    requires
        k <= n <= events.len(),
        coherent(p),
        recorded(events, k, p),
        forall|i: int, j: int, id: TurnId|
            0 <= i < j < n && #[trigger] ends_at(events, i, id) ==> !(#[trigger] ends_at(
                events,
                j,
                id,
            )),
        0 <= i < p.completed.len(),
    ensures
        forall|j: int|
            0 <= j < p.completed.len() && (#[trigger] p.completed[j]).id == p.completed[i].id ==> j
                == i,
        latest(p.completed, i),
{
    let id = p.completed[i].id;
    let q = p.completed[i].completed_seq;
    assert(ends_at(events, q - 1, id));
    assert forall|j: int|
        0 <= j < p.completed.len() && (#[trigger] p.completed[j]).id == id implies j == i by {
        let r = p.completed[j].completed_seq;
        assert(ends_at(events, r - 1, id));
        if j < i {
            assert(p.completed[j].completed_seq < p.completed[i].completed_seq);
        }
        if i < j {
            assert(p.completed[i].completed_seq < p.completed[j].completed_seq);
        }
    }
}

proof fn lemma_asked_alike(a: Seq<StoredView>, b: Seq<StoredView>)
    requires
        bare(a) == bare(b),
    ensures
        asked_ids(a) == asked_ids(b),
    decreases a.len(),
{
    assert(bare(a).len() == a.len() && bare(b).len() == b.len());
    if a.len() > 0 {
        assert(bare(a.drop_last()) =~= bare(a).drop_last());
        assert(bare(b.drop_last()) =~= bare(b).drop_last());
        assert(bare(a)[a.len() - 1] == a.last().message);
        assert(bare(b)[b.len() - 1] == b.last().message);
        lemma_asked_alike(a.drop_last(), b.drop_last());
    }
}

/// What the parent accepted, the fork accepts as well.
proof fn lemma_accepted(
    p: ProjectionView,
    c: ProjectionView,
    e: EventEnvelope,
    ce: EventEnvelope,
    done: Set<TurnId>,
    f: ForkView,
)
    requires
        coherent(p),
        coherent(c),
        alike(p, c),
        shadowed(p, c, done),
        ends_known(p, c, f.ends),
        e.seq != 1,
        ce.seq != 1,
        ce.seq > c.meta.last_seq,
        ce.turn_id == e.turn_id,
        copy_of(e, done, f.ends) == Ok::<Option<SessionEvent>, Seq<char>>(Some(ce.event)),
        e.event is TurnCompleted ==> e.turn_id is Some && done.contains(e.turn_id->0),
        forall|i: int| 0 <= i < p.completed.len() ==> #[trigger] latest(p.completed, i),
        step(p, e) is Ok,
    ensures
        step(c, ce) is Ok,
{
    match e.event {
        SessionEvent::AssistantCompleted(_) => {
            lemma_asked_alike(p.active->0.messages, c.active->0.messages);
        },
        SessionEvent::ContextCompacted(r) => {
            let t = ce.event->ContextCompacted_0;
            let b = boundaries(p.completed);
            let d = boundaries(c.completed);
            let k = slot_of(b, (r.through_turn_id, r.through_seq));
            lemma_slot(b, (r.through_turn_id, r.through_seq));
            assert(b[k] == (p.completed[k].id, p.completed[k].completed_seq));
            assert(latest(p.completed, k));
            assert(c.completed[k].completed_seq == t.through_seq);
            assert(d[k] == (t.through_turn_id, t.through_seq));
            assert forall|j: int| 0 <= j < k implies d[j] != (
                t.through_turn_id,
                t.through_seq,
            ) by {
                assert(c.completed[j].completed_seq < c.completed[k].completed_seq);
                assert(d[j] == (c.completed[j].id, c.completed[j].completed_seq));
            }
            lemma_slot_is(d, (t.through_turn_id, t.through_seq), k);
            if k + 1 < p.completed.len() {
                assert(p.completed[k + 1].id == c.completed[k + 1].id);
            }
        },
        _ => {},
    }
}

/// Everything can be taken over: where a turn ends in the fork is always known.
proof fn lemma_fold_goes_on(events: Seq<EventEnvelope>, n: nat, k: nat)
    requires
        1 <= k <= n <= events.len(),
        unbranched(events.take(n as int)),
        unfolded(events.take(n as int)) is Ok,
    ensures
        unfolded(events.take(k as int)) is Ok,
        fork_fold(events, completed_among(events, n), k) is Ok,
        fork_fold(events, completed_among(events, n), k)->Ok_0.copies.len() < k,
        recorded(events, k, unfolded(events.take(k as int))->Ok_0),
        forall|i: int|
            0 <= i < unfolded(events.take(k as int))->Ok_0.completed.len() ==> fork_fold(
                events,
                completed_among(events, n),
                k,
            )->Ok_0.ends.dom().contains(
                (#[trigger] unfolded(events.take(k as int))->Ok_0.completed[i]).id,
            ),
    decreases k,
{
    let all = events.take(n as int);
    lemma_unfolded_begins(all, k);
    assert(all.take(k as int) =~= events.take(k as int));
    if k > 1 {
        lemma_fold_goes_on(events, n, (k - 1) as nat);
        let done = completed_among(events, n);
        let e = events[k - 1];
        assert(all[k - 1] == e);
        assert(all.take(k - 1) =~= events.take(k - 1));
        let p = unfolded(events.take(k - 1))->Ok_0;
        let p2 = unfolded(events.take(k as int))->Ok_0;
        let f = fork_fold(events, done, (k - 1) as nat)->Ok_0;
        lemma_unfolded_coherent(events.take(k - 1));
        lemma_recorded(events, k, p);
        if e.event is TurnCompleted {
            lemma_done(events, n, k - 1);
        }
        if let SessionEvent::ContextCompacted(r) = e.event {
            let b = boundaries(p.completed);
            let at = slot_of(b, (r.through_turn_id, r.through_seq));
            lemma_slot(b, (r.through_turn_id, r.through_seq));
            assert(b[at] == (p.completed[at].id, p.completed[at].completed_seq));
            assert(f.ends.dom().contains(p.completed[at].id));
            lemma_kept(p, e, at);
            assert forall|i: int| 0 <= i < p2.completed.len() implies (#[trigger] p2.completed[i])
                == p.completed[i + at + 1] by {}
        } else {
            assert forall|i: int| 0 <= i < p2.completed.len() && i < p.completed.len() implies (
            #[trigger] p2.completed[i]) == p.completed[i] by {}
        }
    }
}

/// A turn that is going to be completed does not end badly.
proof fn lemma_no_bad_ending(events: Seq<EventEnvelope>, n: nat, k: int, id: TurnId)
    requires
        0 <= k < n <= events.len(),
        forall|i: int, j: int, id: TurnId|
            0 <= i < j < n && #[trigger] ends_at(events, i, id) ==> !(#[trigger] ends_at(
                events,
                j,
                id,
            )),
        is_bad_ending(events[k].event),
        events[k].turn_id == Some(id),
    ensures
        !completed_among(events, n).contains(id),
{
    assert(ends_at(events, k, id));
    if completed_among(events, n).contains(id) {
        lemma_done_somewhere(events, n, id);
        let j = choose|j: int|
            0 <= j < n && #[trigger] ends_at(events, j, id) && events[j].event is TurnCompleted;
        if j < k {
            assert(!ends_at(events, k, id));
        } else if k < j {
            assert(!ends_at(events, j, id));
        }
    }
}

/// The fork stays with its parent when an event is left out.
proof fn lemma_stays_behind(
    p: ProjectionView,
    c: ProjectionView,
    e: EventEnvelope,
    done: Set<TurnId>,
    ends: Map<TurnId, u64>,
)
    requires
        alike(p, c),
        shadowed(p, c, done),
        ends_known(p, c, ends),
        e.seq != 1,
        copy_of(e, done, ends) == Ok::<Option<SessionEvent>, Seq<char>>(None),
        e.event is TurnCompleted ==> e.turn_id is Some && done.contains(e.turn_id->0),
        is_bad_ending(e.event) && e.turn_id is Some ==> !done.contains(e.turn_id->0),
        !(e.event is BranchSummary),
        step(p, e) is Ok,
    ensures
        alike(step(p, e)->Ok_0, c),
        shadowed(step(p, e)->Ok_0, c, done),
        ends_known(step(p, e)->Ok_0, c, ends),
{
    lemma_left_out(p, c, e, done, ends);
    let p2 = step(p, e)->Ok_0;
    if c.active is Some {
        assert(promising(p, done));
        assert(p2.active == p.active);
    }
}

/// The fork stays with its parent when an event is taken over.
proof fn lemma_stays_beside(
    p: ProjectionView,
    c: ProjectionView,
    e: EventEnvelope,
    ce: EventEnvelope,
    done: Set<TurnId>,
    f: ForkView,
)
    requires
        coherent(p),
        coherent(c),
        alike(p, c),
        shadowed(p, c, done),
        ends_known(p, c, f.ends),
        e.seq != 1,
        ce.seq != 1,
        ce.seq > c.meta.last_seq,
        ce.turn_id == e.turn_id,
        ce.seq == fork_seq(f.copies.len()),
        copy_of(e, done, f.ends) == Ok::<Option<SessionEvent>, Seq<char>>(Some(ce.event)),
        e.event is TurnCompleted ==> e.turn_id is Some && done.contains(e.turn_id->0),
        forall|i: int| 0 <= i < p.completed.len() ==> #[trigger] latest(p.completed, i),
        step(p, e) is Ok,
    ensures
        step(c, ce) is Ok,
        ({
            let p2 = step(p, e)->Ok_0;
            let c2 = step(c, ce)->Ok_0;
            &&& alike(p2, c2)
            &&& shadowed(p2, c2, done)
            &&& ends_known(p2, c2, fork_step(f, e, done)->Ok_0.ends)
            &&& c2.meta.last_seq == ce.seq
        }),
{
    lemma_accepted(p, c, e, ce, done, f);
    if let SessionEvent::ContextCompacted(r) = e.event {
        let b = boundaries(p.completed);
        let k = slot_of(b, (r.through_turn_id, r.through_seq));
        lemma_slot(b, (r.through_turn_id, r.through_seq));
        assert(b[k] == (p.completed[k].id, p.completed[k].completed_seq));
        assert forall|i: int|
            0 <= i < p.completed.len() && (#[trigger] p.completed[i]).id
                == r.through_turn_id implies p.completed[i].completed_seq <= r.through_seq by {
            assert(latest(p.completed, i) && latest(p.completed, k));
        }
    }
    lemma_taken_over(p, c, e, ce, done, f);
    let p2 = step(p, e)->Ok_0;
    let c2 = step(c, ce)->Ok_0;
    assert(c2.active is Some ==> promising(p2, done)) by {
        match e.event {
            SessionEvent::TurnStarted(_) => {},
            SessionEvent::AssistantCompleted(_) => {},
            SessionEvent::ToolStarted(_) => {},
            SessionEvent::ToolFinished(_) => {},
            _ => {},
        }
    }
}

/// A fork begins with nothing, as its parent did.
proof fn lemma_begins_alike(first: EventEnvelope, log: Seq<EventEnvelope>, done: Set<TurnId>)
    requires
        log.len() >= 2,
        log[0].seq == 1,
        log[1].seq == 2,
        log[1].event is SessionForked,
        first_step(log[0]) is Ok,
        first_step(first) is Ok,
    ensures
        unfolded(log.take(2)) is Ok,
        ({
            let p = first_step(first)->Ok_0;
            let c = unfolded(log.take(2))->Ok_0;
            &&& alike(p, c)
            &&& shadowed(p, c, done)
            &&& ends_known(p, c, Map::empty())
            &&& c.meta.last_seq == 2
        }),
{
    let two = log.take(2);
    let one = log.take(1);
    assert(two.drop_last() =~= one);
    assert(two.last() == log[1]);
    assert(one[0] == log[0]);
    assert(unfolded(one) == first_step(log[0]));
    assert(unfolded(two) == step(first_step(log[0])->Ok_0, log[1]));
    let p = first_step(first)->Ok_0;
    let c = unfolded(two)->Ok_0;
    assert(bare(p.committed) =~= bare(c.committed));
}

/// Event by event, the fork accepts what it takes over.
proof fn lemma_never_refused(
    events: Seq<EventEnvelope>,
    n: nat,
    log: Seq<EventEnvelope>,
    k: nat,
)
    requires
        1 <= k <= n <= events.len(),
        unbranched(events.take(n as int)),
        turns_begin_once(events, n),
        unfolded(events.take(n as int)) is Ok,
        fork_fold(events, completed_among(events, n), n) is Ok,
        follows(log, fork_fold(events, completed_among(events, n), n)->Ok_0),
        first_step(log[0]) is Ok,
    ensures
        unfolded(events.take(k as int)) is Ok,
        fork_fold(events, completed_among(events, n), k) is Ok,
        ({
            let done = completed_among(events, n);
            let f = fork_fold(events, done, k)->Ok_0;
            let p = unfolded(events.take(k as int))->Ok_0;
            &&& f.copies.len() + 2 <= log.len()
            &&& unfolded(begun(log, f)) is Ok
            &&& {
                let c = unfolded(begun(log, f))->Ok_0;
                &&& recorded(events, k, p)
                &&& alike(p, c)
                &&& shadowed(p, c, done)
                &&& ends_known(p, c, f.ends)
                &&& c.meta.last_seq == f.copies.len() + 2
            }
        }),
    decreases k,
{
    let done = completed_among(events, n);
    let all = events.take(n as int);
    let whole = fork_fold(events, done, n)->Ok_0;
    lemma_fold_goes_on(events, n, k);
    lemma_copies_stay(events, done, k, n);
    lemma_unfolded_begins(all, k);
    assert(all.take(k as int) =~= events.take(k as int));
    let g = fork_fold(events, done, k)->Ok_0;
    let p2 = unfolded(events.take(k as int))->Ok_0;
    if k == 1 {
        assert(begun(log, g) =~= log.take(2));
        assert(log[0].seq == 1 && log[1].seq == 2);
        assert(events.take(1)[0] == events[0]);
        lemma_begins_alike(events[0], log, done);
    } else {
        lemma_never_refused(events, n, log, (k - 1) as nat);
        let f = fork_fold(events, done, (k - 1) as nat)->Ok_0;
        let p = unfolded(events.take(k - 1))->Ok_0;
        let c = unfolded(begun(log, f))->Ok_0;
        let e = events[k - 1];
        assert(all[k - 1] == e);
        assert(e.seq == k);
        assert(all.take(k - 1) =~= events.take(k - 1));
        assert(step(p, e) == Ok::<ProjectionView, Seq<char>>(p2));
        lemma_unfolded_coherent(events.take(k - 1));
        lemma_unfolded_coherent(begun(log, f));
        lemma_turns_end_once(events, n);
        if e.event is TurnCompleted {
            lemma_done(events, n, k - 1);
        }
        assert forall|i: int| 0 <= i < p.completed.len() implies #[trigger] latest(
            p.completed,
            i,
        ) by {
            lemma_all_latest(events, n, (k - 1) as nat, p, i);
        }
        match copy_of(e, done, f.ends)->Ok_0 {
            None => {
                if is_bad_ending(e.event) && e.turn_id is Some {
                    lemma_no_bad_ending(events, n, k - 1, e.turn_id->0);
                }
                lemma_stays_behind(p, c, e, done, f.ends);
            },
            Some(event) => {
                let m = f.copies.len() as int;
                let ce = log[m + 2];
                assert(g.copies[m] == (event, e.turn_id));
                assert(whole.copies[m] == whole.copies.take(g.copies.len() as int)[m]);
                assert(ce.event == event && ce.turn_id == e.turn_id);
                assert(ce.seq == m + 3);
                lemma_stays_beside(p, c, e, ce, done, f);
                let longer = begun(log, g);
                assert(longer.drop_last() =~= begun(log, f));
                assert(longer.last() == ce);
            },
        }
    }
}

/// The events with which a fork's log goes on.
pub open spec fn rest_of(
    copies: Seq<(SessionEvent, Option<TurnId>)>,
    parent: SessionId,
    cutoff: u64,
    id: SessionId,
    i: int,
) -> EventEnvelope {
    EventEnvelope {
        schema_version: SCHEMA_VERSION,
        seq: (i + 1) as u64,
        parent_seq: None,
        event_id: 0,
        session_id: id,
        run_id: None,
        turn_id: if i == 1 {
            None
        } else {
            copies[i - 2].1
        },
        timestamp: 0,
        event: if i == 1 {
            SessionEvent::SessionForked { parent_session_id: parent, through_seq: cutoff }
        } else {
            copies[i - 2].0
        },
    }
}

/// A session that was only continued, and in which no two turns have the same
/// name, can be forked at the end of each of its completed turns.
pub proof fn a_plain_session_can_be_forked(
    events: Seq<EventEnvelope>,
    parent: SessionId,
    source: SummaryView,
    cutoff: u64,
    child: Option<SessionView>,
    error: Option<Seq<char>>,
)
    requires
        1 < cutoff <= events.len() < u64::MAX - 3,
        events[cutoff - 1].event is TurnCompleted,
        unbranched(events.take(cutoff as int)),
        turns_begin_once(events, cutoff as nat),
        projection_of(events.take(cutoff as int)) is Ok,
        forked(events, parent, source, cutoff, child, error),
    ensures
        error is None,
        child is Some,
{
    let n = cutoff as nat;
    let done = completed_among(events, n);
    lemma_line_projection(events.take(cutoff as int));
    lemma_fold_goes_on(events, n, n);
    if error is Some {
        let m = error->0;
        let k = choose|k: nat|
            1 <= k <= cutoff && #[trigger] fork_stopped(
                events,
                done,
                k,
                parent,
                source,
                cutoff,
                m,
            );
        lemma_fold_goes_on(events, n, k);
        lemma_copies_stay(events, done, k, n);
        let f = fork_fold(events, done, k)->Ok_0;
        let whole = fork_fold(events, done, n)->Ok_0;
        let log = choose|log: Seq<EventEnvelope>| #[trigger]
            is_fork_log(log, parent, source, cutoff, f.copies) && unfolded(log) == Err::<
                ProjectionView,
                Seq<char>,
            >(m);
        let full = Seq::new(
            whole.copies.len() + 2,
            |i: int|
                if i < log.len() {
                    log[i]
                } else {
                    rest_of(whole.copies, parent, cutoff, log[0].session_id, i)
                },
        );
        assert forall|i: int| 0 <= i < full.len() implies (#[trigger] full[i]).seq == i + 1 by {
            if i < log.len() {
                assert(is_next(log[i], i, log[0].session_id));
            }
        }
        assert forall|i: int| 2 <= i < full.len() implies (#[trigger] full[i]).event
            == whole.copies[i - 2].0 && full[i].turn_id == whole.copies[i - 2].1 by {
            if i < log.len() {
                assert(full[i] == log[i]);
                assert(f.copies[i - 2] == whole.copies.take(f.copies.len() as int)[i - 2]);
            }
        }
        assert(full[0] == log[0]);
        assert(is_next(log[0], 0, log[0].session_id));
        assert(full[1].event is SessionForked) by {
            if log.len() > 1 {
                assert(full[1] == log[1]);
            }
        }
        assert(follows(full, whole));
        lemma_never_refused(events, n, full, n);
        assert(begun(full, whole) =~= full);
        lemma_unfolded_begins(full, log.len());
        assert(full.take(log.len() as int) =~= log);
    }
}

} // verus!
