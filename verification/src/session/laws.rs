//! What holds of sessions as a whole.
use crate::llm::protocol::{call_views, plain_message};
use crate::seqs::{lemma_slot, lemma_slot_is, lemma_slot_push, slot_of};
use crate::session::coherence::{
    coherent, cut, every_event_keeps_coherence, lemma_messages_after, lemma_no_fault,
    lemma_turns_after, settled,
};
use crate::session::compaction::KEEP_RECENT_TURNS;
use crate::session::event::{EventEnvelope, SessionEvent, SCHEMA_VERSION};
use crate::session::manager::{fork_fold, unfolded};
use crate::session::model::{ItemView, TreeView, TurnId};
use crate::session::projection::{
    asked_ids, bare, boundaries, call_ids, compactable, context_messages, first_step, item,
    last_item, lemma_step_keeps_tree, projection_of, replay_fold, step, summary_messages,
    with_tree, ProjectionView, TurnView,
};
use crate::session::tree::{
    active_path_of, branch_ids, branch_step, effective_parent, node_seqs, path_to, replay_step,
    rooted, tree_of, with_node,
};
use crate::text::blank;
use vstd::prelude::*;

verus! {

/// The event says that the running turn ended badly.
pub open spec fn is_bad_ending(event: SessionEvent) -> bool {
    event is TurnFailed || event is TurnCancelled || event is TurnInterrupted
}

/// A turn that failed, was cancelled or was interrupted never becomes part of
/// what the model is sent; its input can be tried again.
pub proof fn a_bad_ending_leaves_the_context(s: ProjectionView, e: EventEnvelope)
    requires
        e.seq != 1,
        is_bad_ending(e.event),
        step(s, e) is Ok,
    ensures
        ({
            let n = step(s, e)->Ok_0;
            &&& n.committed == s.committed
            &&& n.completed == s.completed
            &&& n.compaction_summary == s.compaction_summary
            &&& n.active is None
            &&& context_messages(n) == summary_messages(s.compaction_summary) + bare(s.committed)
            &&& n.retry_input == Some(s.active->0.input)
            &&& n.meta.completed_turns == s.meta.completed_turns
        }),
{
    let n = step(s, e)->Ok_0;
    assert(context_messages(n) =~= summary_messages(s.compaction_summary) + bare(s.committed));
}

/// Completing a turn does not change what the model is sent: what the turn held
/// while it ran is what stays.
pub proof fn completing_a_turn_keeps_the_context(s: ProjectionView, e: EventEnvelope)
    requires
        e.seq != 1,
        e.event is TurnCompleted,
        step(s, e) is Ok,
    ensures
        context_messages(step(s, e)->Ok_0) == context_messages(s),
        step(s, e)->Ok_0.retry_input is None,
        step(s, e)->Ok_0.active is None,
        step(s, e)->Ok_0.transcript == s.transcript,
{
    let n = step(s, e)->Ok_0;
    assert(bare(n.committed) =~= bare(s.committed) + bare(s.active->0.messages));
    assert(context_messages(n) =~= context_messages(s));
}

/// After a reset the model is sent nothing of what was before, and the
/// transcript keeps all of it.
pub proof fn a_reset_empties_the_context(s: ProjectionView, e: EventEnvelope)
    requires
        e.seq != 1,
        e.event is ContextReset,
        step(s, e) is Ok,
    ensures
        ({
            let n = step(s, e)->Ok_0;
            &&& context_messages(n).len() == 0
            &&& n.meta.context_epoch == s.meta.context_epoch + 1
            &&& n.transcript.len() == s.transcript.len() + 1
            &&& n.transcript.take(s.transcript.len() as int) == s.transcript
        }),
{
    let n = step(s, e)->Ok_0;
    assert(n.transcript.take(s.transcript.len() as int) =~= s.transcript);
}

/// The event ends the running turn.
pub open spec fn is_ending(event: SessionEvent) -> bool {
    event is TurnCompleted || is_bad_ending(event)
}

/// The event needs a running turn.
pub open spec fn needs_turn(event: SessionEvent) -> bool {
    event is AssistantCompleted || event is ToolStarted || event is ToolFinished || is_ending(event)
}

/// The event has to wait for the running turn to end.
pub open spec fn needs_rest(event: SessionEvent) -> bool {
    event is TurnStarted || event is ContextReset || event is ContextCompacted
        || event is SkillActivated || event is SkillDeactivated || event is BranchCreated
        || event is BranchSelected || event is BranchSummary || event is SessionArchived
}

/// At most one turn runs: while it does, no other begins, and nothing else than
/// the turn itself touches the context.
pub proof fn a_running_turn_stands_alone(s: ProjectionView, e: EventEnvelope)
    requires
        e.seq != 1,
        s.active is Some,
    ensures
        needs_rest(e.event) ==> step(s, e) is Err,
        needs_turn(e.event) && e.turn_id != Some(s.active->0.id) ==> step(s, e) is Err,
{
}

/// Once a turn has ended, nothing of it is accepted any more.
pub proof fn nothing_follows_the_end_of_a_turn(
    s: ProjectionView,
    e: EventEnvelope,
    later: EventEnvelope,
)
    requires
        e.seq != 1,
        later.seq != 1,
        is_ending(e.event),
        needs_turn(later.event),
        step(s, e) is Ok,
    ensures
        step(step(s, e)->Ok_0, later) is Err,
{
}

/// A call is answered once: it has to have been asked for and begun, and its
/// second answer is refused.
pub proof fn a_call_is_answered_once(s: ProjectionView, e: EventEnvelope, again: EventEnvelope)
    requires
        e.seq != 1,
        again.seq != 1,
        e.event is ToolFinished,
        again.event is ToolFinished,
        (again.event->ToolFinished_0).call_id@ == (e.event->ToolFinished_0).call_id@,
        step(s, e) is Ok,
    ensures
        s.active->0.unresolved.contains((e.event->ToolFinished_0).call_id@),
        s.active->0.started.contains((e.event->ToolFinished_0).call_id@),
        step(step(s, e)->Ok_0, again) is Err,
{
}

/// A call is named once in its turn: an answer that asks for a call with the
/// identifier of another call of the turn is refused, also where that call has
/// long been answered.
pub proof fn a_call_is_named_once_in_its_turn(s: ProjectionView, e: EventEnvelope, i: int)
    requires
        coherent(s),
        e.seq != 1,
        s.active is Some,
        e.event is AssistantCompleted,
        ({
            let calls = call_views((e.event->AssistantCompleted_0).tool_calls@);
            0 <= i < calls.len() && asked_ids(s.active->0.messages).contains(calls[i].id)
        }),
    ensures
        step(s, e) is Err,
{
    let calls = call_views((e.event->AssistantCompleted_0).tool_calls@);
    let known = asked_ids(s.active->0.messages);
    if step(s, e) is Ok {
        lemma_no_fault(known, calls);
        let k = choose|k: int| 0 <= k < known.len() && known[k] == calls[i].id;
        let all = known + call_ids(calls);
        assert(all[k] == calls[i].id);
        assert(all[known.len() + i] == calls[i].id);
    }
}

/// While a call waits for its result, the model does not answer again and the
/// turn does not end well.
pub proof fn a_waiting_call_holds_the_turn(s: ProjectionView, e: EventEnvelope)
    requires
        e.seq != 1,
        s.active is Some,
        s.active->0.unresolved != Set::<Seq<char>>::empty(),
        e.event is AssistantCompleted || e.event is TurnCompleted,
    ensures
        step(s, e) is Err,
{
}

/// The turns that a compaction leaves alone.
pub open spec fn recent_turns(s: ProjectionView) -> Seq<TurnView> {
    s.completed.skip(s.completed.len() - KEEP_RECENT_TURNS)
}

/// The compaction goes up to the turn before the recent ones.
pub open spec fn follows_plan(s: ProjectionView, event: SessionEvent) -> bool {
    let count = s.completed.len() - KEEP_RECENT_TURNS;
    event matches SessionEvent::ContextCompacted(c) && {
        &&& c.through_seq == s.completed[count - 1].completed_seq
        &&& c.through_turn_id == s.completed[count - 1].id
        &&& c.keep_from_turn_id == Some(s.completed[count].id)
        &&& !blank(c.summary@)
    }
}

/// A compaction that follows the plan is accepted. It keeps exactly the recent
/// turns and the messages behind the cutoff, puts its summary before them, and
/// takes nothing from the transcript.
pub proof fn a_planned_compaction_keeps_the_recent_turns(s: ProjectionView, e: EventEnvelope)
    requires
        coherent(s),
        compactable(s),
        e.seq > s.meta.last_seq,
        follows_plan(s, e.event),
    ensures
        step(s, e) is Ok,
        ({
            let n = step(s, e)->Ok_0;
            let c = e.event->ContextCompacted_0;
            &&& n.completed == recent_turns(s)
            &&& n.completed.len() == KEEP_RECENT_TURNS
            &&& n.committed == s.committed.skip(cut(s.committed, c.through_seq))
            &&& settled(n.committed)
            &&& context_messages(n) == seq![
                plain_message("system"@, "Summary of earlier session context:\n"@ + c.summary@),
            ] + bare(n.committed)
            &&& n.transcript.len() == s.transcript.len() + 1
            &&& n.transcript.take(s.transcript.len() as int) == s.transcript
        }),
{
    let count = s.completed.len() - KEEP_RECENT_TURNS;
    let c = e.event->ContextCompacted_0;
    let ends = boundaries(s.completed);
    assert(ends[count - 1] == (c.through_turn_id, c.through_seq));
    assert forall|j: int| 0 <= j < count - 1 implies ends[j] != (
        c.through_turn_id,
        c.through_seq,
    ) by {
        assert(s.completed[j].completed_seq < s.completed[count - 1].completed_seq);
    }
    lemma_slot_is(ends, (c.through_turn_id, c.through_seq), count - 1);
    lemma_turns_after(s.completed, count - 1);
    lemma_messages_after(s.committed, c.through_seq);
    every_event_keeps_coherence(s, e);
    let n = step(s, e)->Ok_0;
    assert(n.transcript.take(s.transcript.len() as int) =~= s.transcript);
    assert(context_messages(n) =~= seq![
        plain_message("system"@, "Summary of earlier session context:\n"@ + c.summary@),
    ] + bare(n.committed));
}

/// The item is the same but for what it says.
pub open spec fn same_but_content(a: ItemView, b: ItemView) -> bool {
    a == (ItemView { content: a.content, ..b })
}

proof fn lemma_last_item(items: Seq<ItemView>, call_id: Seq<char>)
    ensures
        -1 <= last_item(items, call_id) < items.len(),
        last_item(items, call_id) >= 0 ==> items[last_item(items, call_id)].tool_call_id == Some(
            call_id,
        ),
    decreases items.len(),
{
    if items.len() > 0 && items.last().tool_call_id != Some(call_id) {
        lemma_last_item(items.drop_last(), call_id);
    }
}

/// Nothing ever leaves the transcript. Only the item of a tool call changes
/// what it says, when the call ends.
pub proof fn the_transcript_only_grows(s: ProjectionView, e: EventEnvelope)
    requires
        step(s, e) is Ok,
    ensures
        ({
            let n = step(s, e)->Ok_0;
            &&& n.transcript.len() >= s.transcript.len()
            &&& forall|i: int|
                0 <= i < s.transcript.len() ==> same_but_content(
                    #[trigger] n.transcript[i],
                    s.transcript[i],
                )
            &&& !(e.event is ToolFinished) ==> n.transcript.take(s.transcript.len() as int)
                == s.transcript
        }),
{
    let n = step(s, e)->Ok_0;
    if let SessionEvent::ToolFinished(r) = e.event {
        lemma_last_item(s.transcript, r.call_id@);
    } else {
        assert(n.transcript.take(s.transcript.len() as int) =~= s.transcript);
        assert forall|i: int| 0 <= i < s.transcript.len() implies same_but_content(
            #[trigger] n.transcript[i],
            s.transcript[i],
        ) by {
            assert(n.transcript.take(s.transcript.len() as int)[i] == s.transcript[i]);
        }
    }
}

pub proof fn lemma_first_coherent(first: EventEnvelope)
    requires
        first_step(first) is Ok,
    ensures
        coherent(first_step(first)->Ok_0),
{
}

proof fn lemma_fold_coherent(events: Seq<EventEnvelope>, path: Seq<u64>, k: nat)
    requires
        replay_fold(events, path, k) is Ok,
    ensures
        coherent(replay_fold(events, path, k)->Ok_0),
    decreases k,
{
    if k <= 1 {
        lemma_first_coherent(events[0]);
    } else {
        lemma_fold_coherent(events, path, (k - 1) as nat);
        let s = replay_fold(events, path, (k - 1) as nat)->Ok_0;
        if path.contains(events[k - 1].seq) {
            every_event_keeps_coherence(s, events[k - 1]);
        }
    }
}

/// Every log that is accepted gives a coherent session; between turns, every
/// tool call that the model is sent has its result.
pub proof fn every_accepted_log_is_coherent(events: Seq<EventEnvelope>)
    requires
        projection_of(events) is Ok,
    ensures
        coherent(projection_of(events)->Ok_0),
        settled(projection_of(events)->Ok_0.committed),
{
    let tree = tree_of(events)->Ok_0;
    let path = active_path_of(tree);
    lemma_fold_coherent(events, path, events.len());
    crate::session::projection::lemma_fold_bounds(events, path, events.len());
}

// ---------------------------------------------------------------------------
// Reopening.
// ---------------------------------------------------------------------------

/// An event follows the one just before it: it names no other parent.
pub open spec fn follows_on(e: EventEnvelope) -> bool {
    e.parent_seq matches Some(p) ==> p + 1 == e.seq
}

/// The events follow each other one by one, and none has to do with branches.
/// Such is the log of a session that is only continued.
pub open spec fn unbranched(events: Seq<EventEnvelope>) -> bool {
    forall|i: int|
        0 <= i < events.len() ==> follows_on(#[trigger] events[i]) && events[i].seq == i
            + 1 && events[i].schema_version == SCHEMA_VERSION && events[i].session_id
            == events[0].session_id && !(events[i].event is BranchCreated) && !(
        events[i].event is BranchSelected) && !(events[i].event is BranchSummary)
}

/// The tree of such a log is one line.
pub open spec fn is_line(t: TreeView, n: nat) -> bool {
    &&& t.nodes.len() == n
    &&& t.branches.len() == 0
    &&& t.active_branch_id is None
    &&& t.active_head_seq == n
    &&& forall|i: int|
        0 <= i < n ==> (#[trigger] t.nodes[i]).seq == i + 1 && t.nodes[i].parent_seq == (if i == 0 {
            None::<u64>
        } else {
            Some(i as u64)
        })
}

pub proof fn lemma_line(events: Seq<EventEnvelope>)
    requires
        events.len() > 0,
        events.len() < u64::MAX,
        unbranched(events),
    ensures
        tree_of(events) is Ok,
        is_line(tree_of(events)->Ok_0, events.len()),
    decreases events.len(),
{
    if events.len() > 1 {
        let before = events.drop_last();
        assert(unbranched(before)) by {
            assert forall|i: int| 0 <= i < before.len() implies follows_on(
                #[trigger] before[i],
            ) && before[i].seq == i + 1
                && before[i].schema_version == SCHEMA_VERSION && before[i].session_id
                == before[0].session_id && !(before[i].event is BranchCreated) && !(
            before[i].event is BranchSelected) && !(before[i].event is BranchSummary) by {
                assert(before[i] == events[i]);
                assert(before[0] == events[0]);
            }
        }
        lemma_line(before);
        let t = tree_of(before)->Ok_0;
        let e = events.last();
        assert(e == events[events.len() - 1]);
        let n = before.len();
        let seqs = node_seqs(t.nodes);
        assert(seqs[n - 1] == n);
        assert(seqs.contains(n as u64));
        assert(!seqs.contains(e.seq)) by {
            if seqs.contains(e.seq) {
                let i = choose|i: int| 0 <= i < seqs.len() && seqs[i] == e.seq;
                assert(seqs[i] == t.nodes[i].seq);
            }
        }
        assert(effective_parent(e) == Some(n as u64));
        let grown = with_node(t, e, Some(n as u64));
        let out = tree_of(events)->Ok_0;
        assert(out == branch_step(grown, e)->Ok_0);
        assert forall|i: int| 0 <= i < events.len() implies (#[trigger] out.nodes[i]).seq == i + 1
            && out.nodes[i].parent_seq == (if i == 0 {
            None::<u64>
        } else {
            Some(i as u64)
        }) by {
            if i < n {
                assert(out.nodes[i] == t.nodes[i]);
            }
        }
    } else {
        assert(events[0].seq == 1);
    }
}

pub proof fn lemma_line_path(t: TreeView, n: nat, i: int)
    requires
        is_line(t, n),
        0 <= i < n,
        n < u64::MAX,
    ensures
        path_to(t.nodes, i).len() == i + 1,
        forall|j: int| 0 <= j <= i ==> #[trigger] path_to(t.nodes, i)[j] == j + 1,
    decreases i,
{
    if i > 0 {
        lemma_line_path(t, n, i - 1);
        let seqs = node_seqs(t.nodes);
        assert(t.nodes[i].parent_seq == Some(i as u64));
        assert(seqs[i - 1] == i as u64) by {
            assert(t.nodes[i - 1].seq == i);
        }
        assert forall|j: int| 0 <= j < i - 1 implies seqs[j] != i as u64 by {
            assert(t.nodes[j].seq == j + 1);
        }
        lemma_slot_is(seqs, i as u64, i - 1);
        let p = path_to(t.nodes, i);
        assert(p == path_to(t.nodes, i - 1).push(t.nodes[i].seq));
        assert forall|j: int| 0 <= j <= i implies #[trigger] p[j] == j + 1 by {
            if j < i {
                assert(p[j] == path_to(t.nodes, i - 1)[j]);
            }
        }
    } else {
        assert(t.nodes[0].parent_seq is None);
    }
}

/// The summary as the log's end would stamp it.
pub proof fn lemma_unfolded_stamp(events: Seq<EventEnvelope>)
    requires
        events.len() > 0,
        unbranched(events),
        unfolded(events) is Ok,
    ensures
        unfolded(events)->Ok_0.meta.last_seq == events.len(),
        unfolded(events)->Ok_0.meta.updated_at == events.last().timestamp,
        unfolded(events)->Ok_0.meta.session_id == events[0].session_id,
    decreases events.len(),
{
    if events.len() > 1 {
        let before = events.drop_last();
        assert forall|i: int| 0 <= i < before.len() implies before[i] == events[i] by {}
        assert(unbranched(before));
        lemma_unfolded_stamp(before);
        assert(events.last() == events[events.len() - 1]);
        assert(events.last().seq == events.len());
    } else {
        assert(events[0].seq == 1);
    }
}

proof fn lemma_fold_is_unfolded(events: Seq<EventEnvelope>, path: Seq<u64>, k: nat)
    requires
        1 <= k <= events.len(),
        unbranched(events),
        forall|j: int| 0 <= j < events.len() ==> #[trigger] path.contains((j + 1) as u64),
        events.len() < u64::MAX,
    ensures
        replay_fold(events, path, k) == unfolded(events.take(k as int)),
    decreases k,
{
    let now = events.take(k as int);
    if k > 1 {
        let before = events.take(k - 1);
        assert(now.drop_last() =~= before);
        assert(now.last() == events[k - 1]);
        lemma_fold_is_unfolded(events, path, (k - 1) as nat);
        assert(unbranched(before)) by {
            assert forall|i: int| 0 <= i < before.len() implies before[i] == events[i] by {}
        }
        if unfolded(before) is Ok {
            lemma_unfolded_stamp(before);
        }
        assert(before[0] == events[0]);
        assert(path.contains(((k - 1) + 1) as u64));
        assert(events[k - 1].seq == k);
    } else {
        assert(now[0] == events[0]);
    }
}

/// The log of a session that is only continued amounts to what its events
/// amount to one by one.
pub proof fn lemma_line_projection(events: Seq<EventEnvelope>)
    requires
        0 < events.len() < u64::MAX,
        unbranched(events),
    ensures
        tree_of(events) is Ok,
        tree_of(events)->Ok_0.active_head_seq == events.len(),
        projection_of(events) == (match unfolded(events) {
            Ok(s) => Ok(with_tree(s, tree_of(events)->Ok_0)),
            Err(m) => Err(m),
        }),
{
    let n = events.len();
    lemma_line(events);
    let t = tree_of(events)->Ok_0;
    let seqs = node_seqs(t.nodes);
    assert(seqs[n - 1] == n) by {
        assert(t.nodes[n - 1].seq == n);
    }
    assert forall|j: int| 0 <= j < n - 1 implies seqs[j] != n as u64 by {
        assert(t.nodes[j].seq == j + 1);
    }
    lemma_slot_is(seqs, n as u64, n - 1);
    lemma_line_path(t, n, n - 1);
    let path = active_path_of(t);
    assert forall|j: int| 0 <= j < events.len() implies #[trigger] path.contains(
        (j + 1) as u64,
    ) by {
        assert(path[j] == j + 1);
    }
    assert(events.take(n as int) =~= events);
    lemma_fold_is_unfolded(events, path, n);
    if unfolded(events) is Ok {
        lemma_unfolded_stamp(events);
        assert(events.last() == events[n - 1]);
        assert(projection_of(events)->Ok_0 =~= with_tree(unfolded(events)->Ok_0, t));
    }
}

/// Every event follows the one just before it, and none has to do with
/// branches.
pub open spec fn straight(events: Seq<EventEnvelope>) -> bool {
    forall|i: int|
        0 <= i < events.len() ==> follows_on(#[trigger] events[i]) && !(
        events[i].event is BranchCreated) && !(events[i].event is BranchSelected) && !(
        events[i].event is BranchSummary)
}

/// The `i`-th event is not numbered as it should be, or does not belong there.
pub open spec fn is_out_of_place(events: Seq<EventEnvelope>, i: int) -> bool {
    events[i].seq != i + 1 || events[i].schema_version != SCHEMA_VERSION || events[i].session_id
        != events[0].session_id
}

/// The log begins like one, and every event is in its place.
pub open spec fn is_in_order(events: Seq<EventEnvelope>) -> bool {
    &&& events.len() > 0
    &&& events[0].event is SessionCreated
    &&& forall|i: int| 0 <= i < events.len() ==> !(#[trigger] is_out_of_place(events, i))
}

proof fn lemma_fold_in_order(events: Seq<EventEnvelope>, path: Seq<u64>, k: nat, i: int)
    requires
        0 <= i < k <= events.len(),
        replay_fold(events, path, k) is Ok,
    ensures
        !is_out_of_place(events, i),
        events[0].event is SessionCreated,
        replay_fold(events, path, k)->Ok_0.meta.session_id == events[0].session_id,
    decreases k,
{
    if k > 1 {
        lemma_fold_in_order(events, path, (k - 1) as nat, if i < k - 1 {
            i
        } else {
            0
        });
        let s = replay_fold(events, path, (k - 1) as nat)->Ok_0;
        if path.contains(events[k - 1].seq) {
            lemma_step_keeps_tree(s, events[k - 1]);
        }
    }
}

/// A log is read in order, and nothing in it is skipped silently: one that does
/// not begin with the session's creation, or in which an event is out of its
/// place, is refused; any other amounts to what its events amount to one by one.
pub proof fn a_log_is_read_in_order(events: Seq<EventEnvelope>)
    requires
        straight(events),
        events.len() < u64::MAX,
    ensures
        !is_in_order(events) ==> projection_of(events) is Err,
        is_in_order(events) ==> projection_of(events) == (match unfolded(events) {
            Ok(s) => Ok(with_tree(s, tree_of(events)->Ok_0)),
            Err(m) => Err(m),
        }),
        projection_of(events) matches Ok(s) ==> s.meta.last_seq == events.len(),
{
    if projection_of(events) is Ok {
        let path = active_path_of(tree_of(events)->Ok_0);
        assert(events.len() > 0);
        assert forall|i: int| 0 <= i < events.len() implies !(#[trigger] is_out_of_place(
            events,
            i,
        )) by {
            lemma_fold_in_order(events, path, events.len(), i);
        }
        lemma_fold_in_order(events, path, events.len(), 0);
        assert(!is_out_of_place(events, events.len() - 1));
    }
    if is_in_order(events) {
        assert(unbranched(events)) by {
            assert forall|i: int| 0 <= i < events.len() implies follows_on(
                #[trigger] events[i],
            ) && events[i].seq == i + 1
                && events[i].schema_version == SCHEMA_VERSION && events[i].session_id
                == events[0].session_id && !(events[i].event is BranchCreated) && !(
            events[i].event is BranchSelected) && !(events[i].event is BranchSummary) by {
                assert(!is_out_of_place(events, i));
            }
        }
        lemma_line_projection(events);
    }
}

/// Reopening a session gives back what it was while it ran: reading its log
/// amounts to the same as the events did one by one, and the session stands at
/// its end.
pub proof fn reopening_gives_the_session_back(events: Seq<EventEnvelope>)
    requires
        0 < events.len() < u64::MAX,
        unbranched(events),
        unfolded(events) is Ok,
    ensures
        tree_of(events) is Ok,
        projection_of(events) == Ok::<ProjectionView, Seq<char>>(
            with_tree(unfolded(events)->Ok_0, tree_of(events)->Ok_0),
        ),
        tree_of(events)->Ok_0.active_head_seq == events.len(),
        context_messages(projection_of(events)->Ok_0) == context_messages(unfolded(events)->Ok_0),
{
    lemma_line_projection(events);
}

// ---------------------------------------------------------------------------
// Forks and trees.
// ---------------------------------------------------------------------------

/// The event happens inside a turn.
pub open spec fn is_turn_event(event: SessionEvent) -> bool {
    event is TurnStarted || event is AssistantCompleted || event is ToolStarted
        || event is ToolFinished || event is TurnCompleted
}

/// What a fork takes over belongs to no turn, or to a turn that was completed
/// before the cutoff. The end of a turn that went badly is never taken over.
pub proof fn a_fork_takes_over_no_unfinished_turn(
    events: Seq<EventEnvelope>,
    done: Set<TurnId>,
    k: nat,
)
    requires
        fork_fold(events, done, k) is Ok,
    ensures
        forall|i: int|
            0 <= i < fork_fold(events, done, k)->Ok_0.copies.len() ==> {
                let copy = #[trigger] fork_fold(events, done, k)->Ok_0.copies[i];
                &&& is_turn_event(copy.0) ==> copy.1 is Some && done.contains(copy.1->0)
                &&& !is_bad_ending(copy.0)
            },
    decreases k,
{
    if k > 1 {
        a_fork_takes_over_no_unfinished_turn(events, done, (k - 1) as nat);
        let f = fork_fold(events, done, (k - 1) as nat)->Ok_0;
        let g = fork_fold(events, done, k)->Ok_0;
        let e = events[k - 1];
        assert forall|i: int| 0 <= i < g.copies.len() implies {
            let copy = #[trigger] g.copies[i];
            &&& is_turn_event(copy.0) ==> copy.1 is Some && done.contains(copy.1->0)
            &&& !is_bad_ending(copy.0)
        } by {
            if i < f.copies.len() {
                assert(g.copies[i] == f.copies[i]);
            }
        }
    }
}

/// Every branch and the session itself stand at an event of the tree, and only
/// the first event has no parent.
pub open spec fn tree_sound(t: TreeView) -> bool {
    &&& rooted(t.nodes)
    &&& t.nodes.len() > 0
    &&& t.nodes[0].seq == 1 && t.nodes[0].parent_seq is None
    &&& forall|i: int| 0 < i < t.nodes.len() ==> (#[trigger] t.nodes[i]).parent_seq is Some
    &&& node_seqs(t.nodes).contains(t.active_head_seq)
    &&& forall|i: int|
        0 <= i < t.branches.len() ==> node_seqs(t.nodes).contains(
            (#[trigger] t.branches[i]).head_seq,
        )
}

proof fn lemma_replay_step_sound(t: TreeView, e: EventEnvelope)
    requires
        tree_sound(t),
        replay_step(t, e) is Ok,
        e.seq > 0,
    ensures
        tree_sound(replay_step(t, e)->Ok_0),
{
    let parent = effective_parent(e);
    let grown = with_node(t, e, parent);
    let out = replay_step(t, e)->Ok_0;
    let seqs = node_seqs(t.nodes);
    let more = node_seqs(grown.nodes);
    assert(more =~= seqs.push(e.seq));
    assert(out.nodes == grown.nodes);
    if let SessionEvent::BranchSummary { branch_id, .. } = e.event {
        lemma_slot(branch_ids(t.branches), branch_id);
    }
    if let Some(id) = t.active_branch_id {
        lemma_slot(branch_ids(t.branches), id);
    }
    assert(more[seqs.len() as int] == e.seq);
    assert(more.contains(e.seq));
    assert forall|x: u64| seqs.contains(x) implies #[trigger] more.contains(x) by {
        let i = choose|i: int| 0 <= i < seqs.len() && seqs[i] == x;
        assert(more[i] == x);
    }
    assert(rooted(grown.nodes)) by {
        assert forall|i: int| 0 <= i < grown.nodes.len() implies match (
        #[trigger] grown.nodes[i]).parent_seq {
            Some(p) => slot_of(more, p) < i,
            None => true,
        } by {
            if let Some(p) = grown.nodes[i].parent_seq {
                lemma_slot(seqs, p);
                lemma_slot_push(seqs, e.seq, p);
                if i < t.nodes.len() {
                    assert(grown.nodes[i] == t.nodes[i]);
                }
            }
        }
    }
    assert(out.nodes[0] == t.nodes[0]);
    assert forall|i: int| 0 < i < out.nodes.len() implies (
    #[trigger] out.nodes[i]).parent_seq is Some by {
        if i < t.nodes.len() {
            assert(out.nodes[i] == t.nodes[i]);
        }
    }
    assert forall|i: int| 0 <= i < out.branches.len() implies more.contains(
        (#[trigger] out.branches[i]).head_seq,
    ) by {
        if i < t.branches.len() {
            assert(seqs.contains(t.branches[i].head_seq));
            assert(out.branches[i] == t.branches[i] || out.branches[i].head_seq == e.seq);
        }
    }
    match e.event {
        SessionEvent::BranchSelected { branch_id, head_seq } => {
            let k = slot_of(branch_ids(t.branches), branch_id);
            lemma_slot(branch_ids(t.branches), branch_id);
            assert(t.branches[k].head_seq == head_seq);
        },
        _ => {},
    }
}

pub proof fn lemma_tree_sound(events: Seq<EventEnvelope>)
    requires
        tree_of(events) is Ok,
        forall|i: int| 0 <= i < events.len() ==> (#[trigger] events[i]).seq > 0,
    ensures
        tree_sound(tree_of(events)->Ok_0),
    decreases events.len(),
{
    if events.len() > 1 {
        let before = events.drop_last();
        assert forall|i: int| 0 <= i < before.len() implies (#[trigger] before[i]).seq > 0 by {
            assert(before[i] == events[i]);
        }
        lemma_tree_sound(before);
        assert(events.last() == events[events.len() - 1]);
        lemma_replay_step_sound(tree_of(before)->Ok_0, events.last());
    } else {
        let t = tree_of(events)->Ok_0;
        assert(node_seqs(t.nodes)[0] == 1);
    }
}

proof fn lemma_path_ends(t: TreeView, i: int)
    requires
        tree_sound(t),
        0 <= i < t.nodes.len(),
    ensures
        path_to(t.nodes, i).len() > 0,
        path_to(t.nodes, i)[0] == 1,
        path_to(t.nodes, i).last() == t.nodes[i].seq,
    decreases i,
{
    if i > 0 {
        let p = t.nodes[i].parent_seq->0;
        let j = slot_of(node_seqs(t.nodes), p);
        lemma_slot(node_seqs(t.nodes), p);
        assert(j < i);
        lemma_path_ends(t, j);
    }
}

/// In the tree of a log, a path leads from the first event to where the session
/// stands.
pub proof fn the_active_path_leads_to_the_head(events: Seq<EventEnvelope>)
    requires
        tree_of(events) is Ok,
        forall|i: int| 0 <= i < events.len() ==> (#[trigger] events[i]).seq > 0,
    ensures
        ({
            let t = tree_of(events)->Ok_0;
            let path = active_path_of(t);
            &&& path.len() > 0
            &&& path[0] == 1
            &&& path.last() == t.active_head_seq
        }),
{
    lemma_tree_sound(events);
    let t = tree_of(events)->Ok_0;
    let seqs = node_seqs(t.nodes);
    lemma_slot(seqs, t.active_head_seq);
    let i = slot_of(seqs, t.active_head_seq);
    lemma_path_ends(t, i);
    assert(seqs[i] == t.nodes[i].seq);
}

} // verus!
