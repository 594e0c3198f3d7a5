//! What the model is sent reads as a conversation: every call stands directly
//! before its results.
use crate::llm::protocol::MessageView;
use crate::session::coherence::{
    coherent, every_event_keeps_coherence, lemma_roles, lemma_waiting_concat, settled, waiting,
};
use crate::session::event::EventEnvelope;
use crate::session::laws::{every_accepted_log_is_coherent, lemma_first_coherent};
use crate::session::manager::unfolded;
use crate::session::projection::{
    bare, call_ids, context_messages, projection_of, summary_messages, ProjectionView,
    StoredView,
};
use vstd::prelude::*;

verus! {

/// The `k`-th message is an answer that asks for the call `id`.
pub open spec fn asks(c: Seq<MessageView>, k: int, id: Seq<char>) -> bool {
    &&& 0 <= k < c.len()
    &&& c[k].role == "assistant"@
    &&& c[k].tool_calls matches Some(calls) && call_ids(calls).contains(id)
}

/// There are only results behind the `k`-th message, up to the `i`-th.
pub open spec fn only_results(c: Seq<MessageView>, k: int, i: int) -> bool {
    forall|j: int| k < j <= i ==> (#[trigger] c[j]).role == "tool"@
}

/// The `i`-th message is the result of the call `id` that the `k`-th asks for,
/// and nothing but results stands between the two.
pub open spec fn is_result(c: Seq<MessageView>, k: int, i: int, id: Seq<char>) -> bool {
    &&& asks(c, k, id)
    &&& k < i < c.len()
    &&& only_results(c, k, i)
    &&& c[i].tool_call_id == Some(id)
}

/// Every result belongs to a call of the nearest answer before it.
pub open spec fn results_belong(c: Seq<MessageView>) -> bool {
    forall|i: int|
        0 <= i < c.len() && (#[trigger] c[i]).role == "tool"@ ==> c[i].tool_call_id is Some
            && exists|k: int| #[trigger] is_result(c, k, i, c[i].tool_call_id->0)
}

/// No call has two results.
pub open spec fn results_are_single(c: Seq<MessageView>) -> bool {
    forall|k: int, i: int, j: int, id: Seq<char>|
        #[trigger] is_result(c, k, i, id) && #[trigger] is_result(c, k, j, id) ==> i == j
}

/// Every call has a result.
pub open spec fn calls_are_answered(c: Seq<MessageView>) -> bool {
    forall|k: int, id: Seq<char>|
        #[trigger] asks(c, k, id) ==> exists|i: int| #[trigger] is_result(c, k, i, id)
}

/// Behind every answer that asks for calls stands, before any other message,
/// exactly one result for each of them; and every result stands there.
pub open spec fn paired(c: Seq<MessageView>) -> bool {
    results_belong(c) && results_are_single(c) && calls_are_answered(c)
}

/// Every call has a result, but for those that are open at the end.
pub open spec fn answered_but(c: Seq<MessageView>, open: Set<Seq<char>>) -> bool {
    forall|k: int, id: Seq<char>|
        #[trigger] asks(c, k, id) ==> (exists|i: int| #[trigger] is_result(c, k, i, id)) || (
        open.contains(id) && only_results(c, k, c.len() - 1))
}

/// What is open was asked for by the last answer, and has no result.
pub open spec fn open_at(c: Seq<MessageView>, open: Set<Seq<char>>, k: int) -> bool {
    forall|id: Seq<char>| #[trigger]
        open.contains(id) ==> asks(c, k, id) && only_results(c, k, c.len() - 1) && forall|i: int|
            !(#[trigger] is_result(c, k, i, id))
}

/// What holds of messages of which `open` waits.
pub open spec fn paired_but(c: Seq<MessageView>, open: Set<Seq<char>>) -> bool {
    &&& results_belong(c)
    &&& results_are_single(c)
    &&& answered_but(c, open)
    &&& exists|k: int| #[trigger] open_at(c, open, k)
}

/// What is a result stays one when a message is added.
proof fn lemma_result_stays(c: Seq<MessageView>, m: MessageView)
    ensures
        forall|k: int, i: int, id: Seq<char>|
            i < c.len() ==> (#[trigger] is_result(c.push(m), k, i, id) <==> is_result(c, k, i, id)),
        forall|k: int, id: Seq<char>|
            k < c.len() ==> (#[trigger] asks(c.push(m), k, id) <==> asks(c, k, id)),
{
    let d = c.push(m);
    assert forall|k: int, i: int, id: Seq<char>| i < c.len() implies (#[trigger] is_result(
        d,
        k,
        i,
        id,
    ) <==> is_result(c, k, i, id)) by {
        if is_result(d, k, i, id) {
            assert forall|j: int| k < j <= i implies (#[trigger] c[j]).role == "tool"@ by {
                assert(d[j] == c[j]);
            }
            assert(asks(c, k, id));
        }
        if is_result(c, k, i, id) {
            assert forall|j: int| k < j <= i implies (#[trigger] d[j]).role == "tool"@ by {
                assert(d[j] == c[j]);
            }
            assert(asks(d, k, id));
        }
    }
}

proof fn lemma_tool_added(c: Seq<MessageView>, open: Set<Seq<char>>, m: MessageView, id: Seq<char>)
    requires
        paired_but(c, open),
        m.role == "tool"@,
        m.tool_call_id == Some(id),
        open.contains(id),
    ensures
        paired_but(c.push(m), open.remove(id)),
{
    lemma_roles();
    lemma_result_stays(c, m);
    let d = c.push(m);
    let n = c.len() as int;
    let k = choose|k: int| #[trigger] open_at(c, open, k);
    assert(asks(c, k, id));
    assert forall|j: int| k < j <= n implies (#[trigger] d[j]).role == "tool"@ by {
        if j < n {
            assert(d[j] == c[j]);
        }
    }
    assert(asks(d, k, id));
    assert(is_result(d, k, n, id));
    assert forall|i: int| 0 <= i < d.len() && (#[trigger] d[i]).role == "tool"@ implies d[i].tool_call_id is Some
        && exists|x: int| #[trigger] is_result(d, x, i, d[i].tool_call_id->0) by {
        if i < n {
            assert(d[i] == c[i]);
            let x = choose|x: int| #[trigger] is_result(c, x, i, c[i].tool_call_id->0);
            assert(is_result(d, x, i, d[i].tool_call_id->0));
        } else {
            assert(d[i] == m);
            assert(is_result(d, k, i, d[i].tool_call_id->0));
        }
    }
    assert forall|x: int, i: int, j: int, a: Seq<char>| #[trigger]
        is_result(d, x, i, a) && #[trigger] is_result(d, x, j, a) implies i == j by {
        if i < n && j < n {
            assert(is_result(c, x, i, a) && is_result(c, x, j, a));
        } else if i != j {
            let o = if i < n {
                i
            } else {
                j
            };
            assert(is_result(d, x, n, a));
            assert(a == id);
            assert(is_result(c, x, o, a));
            assert(x == k) by {
                if x < k {
                    assert(d[k].role == "tool"@);
                    assert(d[k] == c[k]);
                }
                if k < x {
                    assert(d[x].role == "tool"@);
                }
            }
        }
    }
    assert forall|x: int, a: Seq<char>| #[trigger] asks(d, x, a) implies (exists|i: int| #[trigger]
        is_result(d, x, i, a)) || (open.remove(id).contains(a) && only_results(
        d,
        x,
        d.len() - 1,
    )) by {
        assert(x < n);
        assert(asks(c, x, a));
        if exists|i: int| #[trigger] is_result(c, x, i, a) {
            let i = choose|i: int| #[trigger] is_result(c, x, i, a);
            assert(is_result(d, x, i, a));
        } else {
            assert forall|j: int| x < j <= n implies (#[trigger] d[j]).role == "tool"@ by {
                if j < n {
                    assert(d[j] == c[j]);
                }
            }
            if a == id {
                assert(is_result(d, x, n, a));
            }
        }
    }
    assert(open_at(d, open.remove(id), k)) by {
        assert forall|a: Seq<char>| #[trigger] open.remove(id).contains(a) implies asks(d, k, a)
            && only_results(d, k, d.len() - 1) && forall|i: int|
            !(#[trigger] is_result(d, k, i, a)) by {
            assert(open.contains(a));
            assert(asks(c, k, a));
            assert forall|i: int| !(#[trigger] is_result(d, k, i, a)) by {
                if i < n {
                    assert(!is_result(c, k, i, a));
                }
            }
        }
    }
}

proof fn lemma_other_added(c: Seq<MessageView>, m: MessageView, open: Set<Seq<char>>)
    requires
        paired_but(c, Set::empty()),
        m.role != "tool"@,
        forall|id: Seq<char>| #[trigger]
            open.contains(id) <==> m.role == "assistant"@ && m.tool_calls is Some && call_ids(
                m.tool_calls->0,
            ).contains(id),
    ensures
        paired_but(c.push(m), open),
{
    lemma_result_stays(c, m);
    let d = c.push(m);
    let n = c.len() as int;
    assert forall|x: int, i: int, a: Seq<char>| #[trigger] is_result(d, x, i, a) implies i < n by {
        if i == n {
            assert(d[n].role == "tool"@);
        }
    }
    assert forall|i: int| 0 <= i < d.len() && (#[trigger] d[i]).role == "tool"@ implies d[i].tool_call_id is Some
        && exists|x: int| #[trigger] is_result(d, x, i, d[i].tool_call_id->0) by {
        assert(d[i] == c[i]);
        let x = choose|x: int| #[trigger] is_result(c, x, i, c[i].tool_call_id->0);
        assert(is_result(d, x, i, d[i].tool_call_id->0));
    }
    assert forall|x: int, i: int, j: int, a: Seq<char>| #[trigger]
        is_result(d, x, i, a) && #[trigger] is_result(d, x, j, a) implies i == j by {
        assert(is_result(c, x, i, a) && is_result(c, x, j, a));
    }
    assert forall|x: int, a: Seq<char>| #[trigger] asks(d, x, a) implies (exists|i: int| #[trigger]
        is_result(d, x, i, a)) || (open.contains(a) && only_results(d, x, d.len() - 1)) by {
        if x < n {
            assert(asks(c, x, a));
            let i = choose|i: int| #[trigger] is_result(c, x, i, a);
            assert(is_result(d, x, i, a));
        }
    }
    assert(open_at(d, open, n)) by {
        assert forall|a: Seq<char>| #[trigger] open.contains(a) implies asks(d, n, a)
            && only_results(d, n, d.len() - 1) && forall|i: int|
            !(#[trigger] is_result(d, n, i, a)) by {}
    }
}

/// What a conversation waits for is what its calls lack.
proof fn lemma_waiting_is_paired(messages: Seq<StoredView>)
    requires
        waiting(messages) is Some,
    ensures
        paired_but(bare(messages), waiting(messages)->0),
    decreases messages.len(),
{
    let c = bare(messages);
    let open = waiting(messages)->0;
    if messages.len() == 0 {
        assert(open_at(c, open, 0));
    } else {
        let t = messages.drop_last();
        let m = messages.last().message;
        lemma_waiting_is_paired(t);
        assert(c =~= bare(t).push(m));
        let before = waiting(t)->0;
        if m.role == "tool"@ {
            lemma_tool_added(bare(t), before, m, m.tool_call_id->0);
        } else {
            lemma_other_added(bare(t), m, open);
        }
    }
}

/// Between turns, what a coherent session sends the model is a conversation in
/// which every call stands directly before its results.
pub proof fn a_coherent_context_is_paired(s: ProjectionView)
    requires
        coherent(s),
        s.active is None,
    ensures
        paired(context_messages(s)),
{
    lemma_roles();
    let front = summary_messages(s.compaction_summary);
    let stored = front.map_values(|m: MessageView| StoredView { seq: 0, message: m });
    let all = stored + s.committed;
    assert(settled(stored)) by {
        reveal_with_fuel(waiting, 2);
        if front.len() > 0 {
            assert(stored.drop_last() =~= Seq::empty());
            assert(stored.last().message.role == "system"@);
        }
    }
    lemma_waiting_concat(stored, s.committed);
    lemma_waiting_is_paired(all);
    assert(bare(all) =~= context_messages(s));
    let c = bare(all);
    assert forall|k: int, id: Seq<char>| #[trigger] asks(c, k, id) implies exists|i: int| #[trigger]
        is_result(c, k, i, id) by {}
}

/// Whatever events a session has accepted, and however it was read back: between
/// turns, every call that the model is sent stands directly before its results.
pub proof fn every_call_is_sent_with_its_result(events: Seq<EventEnvelope>)
    requires
        events.len() > 0,
    ensures
        unfolded(events) matches Ok(s) ==> s.active is None ==> paired(context_messages(s)),
        projection_of(events) matches Ok(s) ==> s.active is None ==> paired(context_messages(s)),
{
    if unfolded(events) is Ok {
        lemma_unfolded_coherent(events);
        if unfolded(events)->Ok_0.active is None {
            a_coherent_context_is_paired(unfolded(events)->Ok_0);
        }
    }
    if projection_of(events) is Ok {
        every_accepted_log_is_coherent(events);
        if projection_of(events)->Ok_0.active is None {
            a_coherent_context_is_paired(projection_of(events)->Ok_0);
        }
    }
}

/// What an accepted log amounts to is coherent.
pub proof fn lemma_unfolded_coherent(events: Seq<EventEnvelope>)
    requires
        events.len() > 0,
        unfolded(events) is Ok,
    ensures
        coherent(unfolded(events)->Ok_0),
    decreases events.len(),
{
    if events.len() > 1 {
        lemma_unfolded_coherent(events.drop_last());
        every_event_keeps_coherence(unfolded(events.drop_last())->Ok_0, events.last());
    } else {
        lemma_first_coherent(events[0]);
    }
}

} // verus!
