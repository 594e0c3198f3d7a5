//! What every projection keeps true, whatever events it has seen.
use crate::llm::protocol::{call_views, CallView};
use crate::seqs::{lemma_filter_order, lemma_filter_tail, lemma_slot, slot_of};
use crate::session::event::{EventEnvelope, SessionEvent};
use crate::session::model::{SessionStatus, SkillView, SummaryView};
use crate::session::projection::{
    asked_ids, boundaries, call_fault, call_ids, messages_after, placed, skill_names, step, turns_after,
    ActiveView, ProjectionView, StoredView, TurnView,
};
use crate::text::blank;
use vstd::prelude::*;

verus! {

/// The calls that still wait for a result after `messages`, read in order, or
/// none where the messages do not fit together: a result without a call, a
/// call that comes twice, or anything else than a result while a call waits.
pub open spec fn waiting(messages: Seq<StoredView>) -> Option<Set<Seq<char>>>
    decreases messages.len(),
{
    if messages.len() == 0 {
        Some(Set::empty())
    } else {
        match waiting(messages.drop_last()) {
            None => None,
            Some(open) => {
                let m = messages.last().message;
                if m.role == "tool"@ {
                    match m.tool_call_id {
                        Some(id) => if open.contains(id) {
                            Some(open.remove(id))
                        } else {
                            None
                        },
                        None => None,
                    }
                } else if open != Set::<Seq<char>>::empty() {
                    None
                } else if m.role == "assistant"@ {
                    match m.tool_calls {
                        Some(calls) => if call_ids(calls).no_duplicates() {
                            Some(call_ids(calls).to_set())
                        } else {
                            None
                        },
                        None => Some(Set::empty()),
                    }
                } else {
                    Some(Set::empty())
                }
            },
        }
    }
}

/// Every call has its result.
pub open spec fn settled(messages: Seq<StoredView>) -> bool {
    waiting(messages) == Some(Set::<Seq<char>>::empty())
}

/// The messages stand in the order of the log.
pub open spec fn ascending(messages: Seq<StoredView>) -> bool {
    forall|i: int, j: int|
        0 <= i < j < messages.len() ==> (#[trigger] messages[i]).seq < (#[trigger] messages[j]).seq
}

/// The turns stand in the order of the log.
pub open spec fn turns_ascending(turns: Seq<TurnView>) -> bool {
    forall|i: int, j: int|
        0 <= i < j < turns.len() ==> (#[trigger] turns[i]).completed_seq < (
        #[trigger] turns[j]).completed_seq
}

/// How many of the ordered messages stand at or before `seq`.
pub open spec fn cut(messages: Seq<StoredView>, seq: u64) -> int
    decreases messages.len(),
{
    if messages.len() > 0 && messages.last().seq > seq {
        cut(messages.drop_last(), seq)
    } else {
        messages.len() as int
    }
}

/// The messages of the completed turns form an ordered conversation in which
/// every call has its result, also when it is cut at the end of a turn.
pub open spec fn context_sound(
    committed: Seq<StoredView>,
    completed: Seq<TurnView>,
    last_seq: u64,
) -> bool {
    &&& ascending(committed)
    &&& turns_ascending(completed)
    &&& settled(committed)
    &&& forall|i: int| 0 <= i < committed.len() ==> (#[trigger] committed[i]).seq <= last_seq
    &&& forall|i: int| 0 <= i < completed.len() ==> (#[trigger] completed[i]).completed_seq <= last_seq
    &&& forall|i: int|
        0 <= i < completed.len() ==> settled(
            committed.take(cut(committed, (#[trigger] completed[i]).completed_seq)),
        )
}

/// The running turn comes after everything that is completed; what waits in it
/// is what its messages leave waiting, only what waits can have begun, and no
/// two of its calls have the same identifier.
pub open spec fn turn_sound(s: ProjectionView, turn: ActiveView) -> bool {
    &&& ascending(turn.messages)
    &&& waiting(turn.messages) == Some(turn.unresolved)
    &&& turn.started.subset_of(turn.unresolved)
    &&& asked_ids(turn.messages).no_duplicates()
    &&& forall|i: int|
        0 <= i < turn.messages.len() ==> (#[trigger] turn.messages[i]).seq <= s.meta.last_seq
    &&& forall|i: int, j: int|
        0 <= i < s.committed.len() && 0 <= j < turn.messages.len() ==> (#[trigger] s.committed[i]).seq
            < (#[trigger] turn.messages[j]).seq
    &&& forall|i: int, j: int|
        0 <= i < s.completed.len() && 0 <= j < turn.messages.len() ==> (
        #[trigger] s.completed[i]).completed_seq < (#[trigger] turn.messages[j]).seq
}

/// The active Skills are sorted, and none is there twice.
pub open spec fn skills_sound(skills: Seq<SkillView>) -> bool {
    &&& skill_names(skills).no_duplicates()
    &&& forall|i: int, j: int|
        0 <= i < j < skills.len() ==> (#[trigger] skills[i]).order <= (#[trigger] skills[j]).order
}

/// What every projection keeps true.
pub open spec fn coherent(s: ProjectionView) -> bool {
    &&& s.meta.last_seq >= 1
    &&& skills_sound(s.meta.active_skills)
    &&& (s.meta.status == SessionStatus::Running <==> s.active is Some)
    &&& context_sound(s.committed, s.completed, s.meta.last_seq)
    &&& forall|i: int|
        0 <= i < s.completed.len() ==> asked_ids(
            (#[trigger] s.completed[i]).messages,
        ).no_duplicates()
    &&& s.active matches Some(turn) ==> turn_sound(s, turn)
}

pub proof fn lemma_roles()
    ensures
        "tool"@ != "assistant"@,
        "tool"@ != "user"@,
        "tool"@ != "system"@,
        "assistant"@ != "user"@,
        "assistant"@ != "system"@,
{
    reveal_strlit("tool");
    reveal_strlit("assistant");
    reveal_strlit("user");
    reveal_strlit("system");
    assert("tool"@.len() == 4);
    assert("assistant"@.len() == 9);
    assert("user"@.len() == 4);
    assert("system"@.len() == 6);
    assert("tool"@[0] != "user"@[0]);
}

/// A conversation that follows a settled one waits for what it alone waits for.
pub proof fn lemma_waiting_concat(a: Seq<StoredView>, b: Seq<StoredView>)
    requires
        settled(a),
    ensures
        waiting(a + b) == waiting(b),
    decreases b.len(),
{
    if b.len() == 0 {
        assert(a + b =~= a);
    } else {
        lemma_waiting_concat(a, b.drop_last());
        assert((a + b).drop_last() =~= a + b.drop_last());
        assert((a + b).last() == b.last());
    }
}

pub proof fn lemma_cut(messages: Seq<StoredView>, seq: u64)
    requires
        ascending(messages),
    ensures
        0 <= cut(messages, seq) <= messages.len(),
        forall|i: int| 0 <= i < cut(messages, seq) ==> (#[trigger] messages[i]).seq <= seq,
        forall|i: int| cut(messages, seq) <= i < messages.len() ==> (#[trigger] messages[i]).seq > seq,
    decreases messages.len(),
{
    if messages.len() > 0 {
        if messages.last().seq > seq {
            let t = messages.drop_last();
            assert(ascending(t)) by {
                assert forall|i: int, j: int| 0 <= i < j < t.len() implies (#[trigger] t[i]).seq < (
                #[trigger] t[j]).seq by {
                    assert(t[i] == messages[i] && t[j] == messages[j]);
                }
            }
            lemma_cut(t, seq);
            assert forall|i: int| 0 <= i < cut(messages, seq) implies (#[trigger] messages[i]).seq
                <= seq by {
                assert(t[i] == messages[i]);
            }
            assert forall|i: int| cut(messages, seq) <= i < messages.len() implies (
            #[trigger] messages[i]).seq > seq by {
                if i < t.len() {
                    assert(t[i] == messages[i]);
                }
            }
        } else {
            assert forall|i: int| 0 <= i < messages.len() implies (#[trigger] messages[i]).seq
                <= seq by {
                if i < messages.len() - 1 {
                    assert(messages[i].seq < messages[messages.len() - 1].seq);
                }
            }
        }
    }
}

/// A position that splits the ordered messages at `seq` is the cut.
pub proof fn lemma_cut_is(messages: Seq<StoredView>, seq: u64, k: int)
    requires
        ascending(messages),
        0 <= k <= messages.len(),
        forall|i: int| 0 <= i < k ==> (#[trigger] messages[i]).seq <= seq,
        forall|i: int| k <= i < messages.len() ==> (#[trigger] messages[i]).seq > seq,
    ensures
        cut(messages, seq) == k,
{
    lemma_cut(messages, seq);
    let c = cut(messages, seq);
    if c < k {
        assert(messages[c].seq <= seq);
    }
    if k < c {
        assert(messages[k].seq > seq);
    }
}

/// Keeping what stands after `seq` keeps the tail behind the cut.
pub proof fn lemma_messages_after(messages: Seq<StoredView>, seq: u64)
    requires
        ascending(messages),
    ensures
        messages_after(messages, seq) == messages.skip(cut(messages, seq)),
{
    lemma_cut(messages, seq);
    lemma_filter_tail(messages, |m: StoredView| m.seq > seq, cut(messages, seq));
}

/// Keeping the turns that were completed after the `k`-th keeps those behind
/// it.
pub proof fn lemma_turns_after(turns: Seq<TurnView>, k: int)
    requires
        turns_ascending(turns),
        0 <= k < turns.len(),
    ensures
        turns_after(turns, turns[k].completed_seq) == turns.skip(k + 1),
{
    let seq = turns[k].completed_seq;
    assert forall|i: int| 0 <= i < k + 1 implies !((#[trigger] turns[i]).completed_seq > seq) by {
        if i < k {
            assert(turns[i].completed_seq < turns[k].completed_seq);
        }
    }
    lemma_filter_tail(turns, |t: TurnView| t.completed_seq > seq, k + 1);
}

/// Messages behind everything that is there settle as they settle alone.
proof fn lemma_context_grows(
    committed: Seq<StoredView>,
    completed: Seq<TurnView>,
    last_seq: u64,
    more: Seq<StoredView>,
    next_seq: u64,
)
    requires
        context_sound(committed, completed, last_seq),
        ascending(more),
        settled(more),
        last_seq < next_seq,
        forall|i: int| 0 <= i < more.len() ==> (#[trigger] more[i]).seq <= next_seq,
        forall|i: int, j: int|
            0 <= i < committed.len() && 0 <= j < more.len() ==> (#[trigger] committed[i]).seq < (
            #[trigger] more[j]).seq,
        forall|i: int, j: int|
            0 <= i < completed.len() && 0 <= j < more.len() ==> (
            #[trigger] completed[i]).completed_seq < (#[trigger] more[j]).seq,
    ensures
        context_sound(committed + more, completed, next_seq),
{
    let all = committed + more;
    assert forall|i: int, j: int| 0 <= i < j < all.len() implies (#[trigger] all[i]).seq < (
    #[trigger] all[j]).seq by {
        if j < committed.len() {
            assert(all[i] == committed[i] && all[j] == committed[j]);
        } else if i < committed.len() {
            assert(all[i] == committed[i] && all[j] == more[j - committed.len()]);
        } else {
            assert(all[i] == more[i - committed.len()] && all[j] == more[j - committed.len()]);
        }
    }
    lemma_waiting_concat(committed, more);
    assert forall|i: int| 0 <= i < completed.len() implies settled(
        all.take(cut(all, (#[trigger] completed[i]).completed_seq)),
    ) by {
        let seq = completed[i].completed_seq;
        let k = cut(committed, seq);
        lemma_cut(committed, seq);
        assert forall|n: int| 0 <= n < k implies (#[trigger] all[n]).seq <= seq by {
            assert(all[n] == committed[n]);
        }
        assert forall|n: int| k <= n < all.len() implies (#[trigger] all[n]).seq > seq by {
            if n < committed.len() {
                assert(all[n] == committed[n]);
            } else {
                assert(all[n] == more[n - committed.len()]);
            }
        }
        lemma_cut_is(all, seq, k);
        assert(all.take(k) =~= committed.take(k));
    }
    assert forall|i: int| 0 <= i < all.len() implies (#[trigger] all[i]).seq <= next_seq by {
        if i < committed.len() {
            assert(all[i] == committed[i]);
        } else {
            assert(all[i] == more[i - committed.len()]);
        }
    }
}

/// Ending a turn adds a boundary behind all messages.
proof fn lemma_boundary_added(
    committed: Seq<StoredView>,
    completed: Seq<TurnView>,
    old_seq: u64,
    turn: TurnView,
)
    requires
        context_sound(committed, completed, turn.completed_seq),
        old_seq < turn.completed_seq,
        forall|i: int| 0 <= i < completed.len() ==> (#[trigger] completed[i]).completed_seq <= old_seq,
    ensures
        context_sound(committed, completed.push(turn), turn.completed_seq),
{
    let all = completed.push(turn);
    assert forall|i: int| 0 <= i < all.len() implies settled(
        committed.take(cut(committed, (#[trigger] all[i]).completed_seq)),
    ) by {
        if i < completed.len() {
            assert(all[i] == completed[i]);
        } else {
            lemma_cut_is(committed, turn.completed_seq, committed.len() as int);
            assert(committed.take(committed.len() as int) =~= committed);
        }
    }
    assert forall|i: int, j: int| 0 <= i < j < all.len() implies (#[trigger] all[i]).completed_seq < (
    #[trigger] all[j]).completed_seq by {
        assert(all[i] == completed[i]);
        if j < completed.len() {
            assert(all[j] == completed[j]);
        }
    }
}

/// Cutting at a boundary leaves a sound context behind it.
proof fn lemma_context_cut(
    committed: Seq<StoredView>,
    completed: Seq<TurnView>,
    last_seq: u64,
    k: int,
)
    requires
        context_sound(committed, completed, last_seq),
        0 <= k < completed.len(),
    ensures
        context_sound(
            messages_after(committed, completed[k].completed_seq),
            turns_after(completed, completed[k].completed_seq),
            last_seq,
        ),
{
    let seq = completed[k].completed_seq;
    let c = cut(committed, seq);
    lemma_cut(committed, seq);
    lemma_messages_after(committed, seq);
    lemma_turns_after(completed, k);
    let kept = committed.skip(c);
    let turns = completed.skip(k + 1);
    assert(settled(committed.take(c)));
    assert(settled(kept)) by {
        assert(committed =~= committed.take(c) + kept);
        lemma_waiting_concat(committed.take(c), kept);
    }
    lemma_skipped(committed, completed, last_seq, c, k + 1);
    assert forall|i: int| 0 <= i < turns.len() implies settled(
        kept.take(cut(kept, (#[trigger] turns[i]).completed_seq)),
    ) by {
        let turn = completed[i + k + 1];
        assert(turns[i] == turn);
        assert(completed[k].completed_seq < turn.completed_seq);
        assert(settled(committed.take(cut(committed, turn.completed_seq))));
        lemma_cut_behind(committed, seq, turn.completed_seq);
    }
}

/// Tails of ordered messages and turns are ordered.
proof fn lemma_skipped(
    committed: Seq<StoredView>,
    completed: Seq<TurnView>,
    last_seq: u64,
    c: int,
    k: int,
)
    requires
        ascending(committed),
        turns_ascending(completed),
        forall|i: int| 0 <= i < committed.len() ==> (#[trigger] committed[i]).seq <= last_seq,
        forall|i: int| 0 <= i < completed.len() ==> (#[trigger] completed[i]).completed_seq <= last_seq,
        0 <= c <= committed.len(),
        0 <= k <= completed.len(),
    ensures
        ascending(committed.skip(c)),
        turns_ascending(completed.skip(k)),
        forall|i: int|
            0 <= i < committed.skip(c).len() ==> (#[trigger] committed.skip(c)[i]).seq <= last_seq,
        forall|i: int|
            0 <= i < completed.skip(k).len() ==> (#[trigger] completed.skip(k)[i]).completed_seq
                <= last_seq,
{
}

/// Cutting what stands behind a settled place, at a later settled place, leaves
/// it settled.
proof fn lemma_cut_behind(committed: Seq<StoredView>, seq: u64, later: u64)
    requires
        ascending(committed),
        seq < later,
        settled(committed.take(cut(committed, seq))),
        settled(committed.take(cut(committed, later))),
    ensures
        ({
            let kept = committed.skip(cut(committed, seq));
            settled(kept.take(cut(kept, later)))
        }),
{
    let c = cut(committed, seq);
    let d = cut(committed, later);
    let kept = committed.skip(c);
    lemma_cut(committed, seq);
    lemma_cut(committed, later);
    if d < c {
        assert(committed[d].seq > later);
        assert(committed[d].seq <= seq);
    }
    assert forall|i: int, j: int| 0 <= i < j < kept.len() implies (#[trigger] kept[i]).seq < (
    #[trigger] kept[j]).seq by {
        assert(kept[i] == committed[i + c] && kept[j] == committed[j + c]);
    }
    assert forall|n: int| 0 <= n < d - c implies (#[trigger] kept[n]).seq <= later by {
        assert(kept[n] == committed[n + c]);
    }
    assert forall|n: int| d - c <= n < kept.len() implies (#[trigger] kept[n]).seq > later by {
        assert(kept[n] == committed[n + c]);
    }
    lemma_cut_is(kept, later, d - c);
    assert(committed.take(d) =~= committed.take(c) + kept.take(d - c));
    lemma_waiting_concat(committed.take(c), kept.take(d - c));
}

/// A group of calls without a fault has no identifier twice, nor one that was
/// known.
pub proof fn lemma_no_fault(known: Seq<Seq<char>>, calls: Seq<CallView>)
    requires
        known.no_duplicates(),
        call_fault(known, calls) is None,
    ensures
        call_ids(calls).no_duplicates(),
        (known + call_ids(calls)).no_duplicates(),
        forall|i: int| 0 <= i < calls.len() ==> !blank((#[trigger] calls[i]).id),
    decreases calls.len(),
{
    if calls.len() > 0 {
        let t = calls.drop_last();
        lemma_no_fault(known, t);
        let ids = call_ids(calls);
        assert(call_ids(t) =~= ids.drop_last());
        let before = known + call_ids(t);
        let all = known + ids;
        assert forall|i: int, j: int| 0 <= i < all.len() && 0 <= j < all.len() && i != j implies all[i]
            != all[j] by {
            if i < before.len() {
                assert(before[i] == all[i]);
            }
            if j < before.len() {
                assert(before[j] == all[j]);
            }
        }
        assert forall|i: int, j: int| 0 <= i < ids.len() && 0 <= j < ids.len() && i != j implies ids[i]
            != ids[j] by {
            assert(all[known.len() + i] == ids[i]);
            assert(all[known.len() + j] == ids[j]);
        }
        assert forall|i: int| 0 <= i < calls.len() implies !blank((#[trigger] calls[i]).id) by {
            if i < t.len() {
                assert(t[i] == calls[i]);
            }
        }
    }
}

/// Placing a Skill keeps the list sorted, and adds nothing else.
pub proof fn lemma_placed(skills: Seq<SkillView>, new: SkillView)
    requires
        skills_sound(skills),
        !skill_names(skills).contains(new.name),
    ensures
        skills_sound(placed(skills, new)),
        placed(skills, new).len() == skills.len() + 1,
        forall|x: SkillView| #[trigger]
            placed(skills, new).contains(x) <==> skills.contains(x) || x == new,
    decreases skills.len(),
{
    let out = placed(skills, new);
    let names = skill_names(skills);
    if skills.len() > 0 && skills.last().order > new.order {
        let t = skills.drop_last();
        let last = skills.last();
        assert(skill_names(t) =~= names.drop_last());
        assert(skills_sound(t)) by {
            assert forall|i: int, j: int| 0 <= i < j < t.len() implies (#[trigger] t[i]).order <= (
            #[trigger] t[j]).order by {
                assert(t[i] == skills[i] && t[j] == skills[j]);
            }
        }
        assert(!skill_names(t).contains(new.name)) by {
            if skill_names(t).contains(new.name) {
                let n = choose|n: int| 0 <= n < t.len() && skill_names(t)[n] == new.name;
                assert(names[n] == new.name);
            }
        }
        lemma_placed(t, new);
        let sub = placed(t, new);
        assert(out == sub.push(last));
        assert forall|x: SkillView| #[trigger] out.contains(x) <==> skills.contains(x) || x
            == new by {
            if out.contains(x) {
                let n = choose|n: int| 0 <= n < out.len() && out[n] == x;
                if n < sub.len() {
                    assert(sub[n] == x);
                    assert(sub.contains(x));
                    if t.contains(x) {
                        let m = choose|m: int| 0 <= m < t.len() && t[m] == x;
                        assert(skills[m] == x);
                    }
                } else {
                    assert(skills[skills.len() - 1] == x);
                }
            }
            if skills.contains(x) || x == new {
                if skills.contains(x) {
                    let m = choose|m: int| 0 <= m < skills.len() && skills[m] == x;
                    if m < t.len() {
                        assert(t[m] == x);
                        assert(t.contains(x));
                        assert(sub.contains(x));
                        let n = choose|n: int| 0 <= n < sub.len() && sub[n] == x;
                        assert(out[n] == x);
                    } else {
                        assert(out[out.len() - 1] == x);
                    }
                } else {
                    assert(sub.contains(x));
                    let n = choose|n: int| 0 <= n < sub.len() && sub[n] == x;
                    assert(out[n] == x);
                }
            }
        }
        let onames = skill_names(out);
        assert forall|i: int, j: int| 0 <= i < onames.len() && 0 <= j < onames.len() && i != j implies onames[i]
            != onames[j] by {
            if i < sub.len() && j < sub.len() {
                assert(skill_names(sub)[i] != skill_names(sub)[j]);
            } else {
                let n = if i < sub.len() {
                    i
                } else {
                    j
                };
                assert(sub.contains(sub[n]));
                if t.contains(sub[n]) {
                    let m = choose|m: int| 0 <= m < t.len() && t[m] == sub[n];
                    assert(names[m] != names[skills.len() - 1]);
                    assert(names[m] == sub[n].name);
                } else {
                    assert(sub[n] == new);
                    assert(names[skills.len() - 1] == last.name);
                    assert(names.contains(last.name));
                }
            }
        }
        assert forall|i: int, j: int| 0 <= i < j < out.len() implies (#[trigger] out[i]).order <= (
        #[trigger] out[j]).order by {
            if j < sub.len() {
                assert(sub[i].order <= sub[j].order);
            } else {
                assert(sub.contains(sub[i]));
                if t.contains(sub[i]) {
                    let m = choose|m: int| 0 <= m < t.len() && t[m] == sub[i];
                    assert(skills[m].order <= skills[skills.len() - 1].order);
                }
            }
        }
    } else {
        let onames = skill_names(out);
        assert(onames =~= names.push(new.name));
        assert forall|i: int, j: int| 0 <= i < j < out.len() implies (#[trigger] out[i]).order <= (
        #[trigger] out[j]).order by {
            assert(out[i] == skills[i]);
            if j < skills.len() {
                assert(out[j] == skills[j]);
            } else if i < skills.len() - 1 {
                assert(skills[i].order <= skills[skills.len() - 1].order);
            }
        }
        assert forall|x: SkillView| #[trigger] out.contains(x) <==> skills.contains(x) || x
            == new by {
            if skills.contains(x) {
                let m = choose|m: int| 0 <= m < skills.len() && skills[m] == x;
                assert(out[m] == x);
            }
            if x == new {
                assert(out[out.len() - 1] == x);
            }
        }
    }
}

/// Dropping Skills keeps the rest sound.
proof fn lemma_skills_filtered(skills: Seq<SkillView>, name: Seq<char>)
    requires
        skills_sound(skills),
    ensures
        skills_sound(skills.filter(|k: SkillView| k.name != name)),
{
    let keep = |k: SkillView| k.name != name;
    let before = |a: SkillView, b: SkillView| a.order <= b.order && a.name != b.name;
    assert forall|i: int, j: int| 0 <= i < j < skills.len() implies before(
        #[trigger] skills[i],
        #[trigger] skills[j],
    ) by {
        assert(skill_names(skills)[i] != skill_names(skills)[j]);
    }
    lemma_filter_order(skills, keep, before);
    let f = skills.filter(keep);
    assert forall|i: int, j: int| 0 <= i < skill_names(f).len() && 0 <= j < skill_names(f).len() && i
        != j implies skill_names(f)[i] != skill_names(f)[j] by {
        if i < j {
            assert(before(f[i], f[j]));
        } else {
            assert(before(f[j], f[i]));
        }
    }
    assert forall|i: int, j: int| 0 <= i < j < f.len() implies (#[trigger] f[i]).order <= (
    #[trigger] f[j]).order by {
        assert(before(f[i], f[j]));
    }
}

/// One more message at the end of the running turn.
proof fn lemma_turn_grows(s: ProjectionView, m: StoredView, next: ActiveView, next_seq: u64)
    requires
        coherent(s),
        s.active is Some,
        m.seq == next_seq,
        next_seq > s.meta.last_seq,
        next.messages == s.active->0.messages.push(m),
        waiting(next.messages) == Some(next.unresolved),
        asked_ids(next.messages).no_duplicates(),
        next.started.subset_of(next.unresolved),
    ensures
        turn_sound(
            ProjectionView { meta: SummaryView { last_seq: next_seq, ..s.meta }, ..s },
            next,
        ),
{
    let turn = s.active->0;
    assert forall|i: int, j: int| 0 <= i < j < next.messages.len() implies (
    #[trigger] next.messages[i]).seq < (#[trigger] next.messages[j]).seq by {
        assert(next.messages[i] == turn.messages[i]);
        if j < turn.messages.len() {
            assert(next.messages[j] == turn.messages[j]);
        }
    }
    assert forall|i: int| 0 <= i < next.messages.len() implies (#[trigger] next.messages[i]).seq
        <= next_seq by {
        if i < turn.messages.len() {
            assert(next.messages[i] == turn.messages[i]);
        }
    }
    assert forall|i: int, j: int|
        0 <= i < s.committed.len() && 0 <= j < next.messages.len() implies (
    #[trigger] s.committed[i]).seq < (#[trigger] next.messages[j]).seq by {
        if j < turn.messages.len() {
            assert(next.messages[j] == turn.messages[j]);
        }
    }
    assert forall|i: int, j: int|
        0 <= i < s.completed.len() && 0 <= j < next.messages.len() implies (
    #[trigger] s.completed[i]).completed_seq < (#[trigger] next.messages[j]).seq by {
        if j < turn.messages.len() {
            assert(next.messages[j] == turn.messages[j]);
        }
    }
}

/// Every event that is accepted keeps the projection coherent.
pub proof fn every_event_keeps_coherence(s: ProjectionView, e: EventEnvelope)
    requires
        coherent(s),
        step(s, e) is Ok,
    ensures
        coherent(step(s, e)->Ok_0),
{
    if e.seq != 1 {
        lemma_roles();
        let n = step(s, e)->Ok_0;
        match e.event {
            SessionEvent::SkillActivated { name, source, digest, order } => {
                lemma_placed(
                    s.meta.active_skills,
                    SkillView { name: name@, source: source@, digest: digest@, order },
                );
            },
            SessionEvent::SkillDeactivated { name } => {
                lemma_skills_filtered(s.meta.active_skills, name@);
            },
            SessionEvent::TurnStarted(user) => {
                let turn = n.active->0;
                assert(turn.messages.drop_last() =~= Seq::<StoredView>::empty());
                reveal_with_fuel(waiting, 2);
                reveal_with_fuel(asked_ids, 2);
                assert(waiting(turn.messages) == Some(turn.unresolved));
                assert(asked_ids(turn.messages) =~= Seq::empty());
                assert(turn_sound(n, turn));
            },
            SessionEvent::AssistantCompleted(a) => {
                let turn = n.active->0;
                let m = turn.messages.last();
                assert(turn.messages.drop_last() =~= s.active->0.messages);
                let calls = call_views(a.tool_calls@);
                let known = asked_ids(s.active->0.messages);
                lemma_no_fault(known, calls);
                assert(asked_ids(turn.messages) =~= known + call_ids(calls));
                if a.tool_calls@.len() == 0 {
                    assert(turn.unresolved =~= Set::empty());
                }
                assert(waiting(turn.messages) == Some(turn.unresolved));
                assert(turn.started =~= Set::empty());
                lemma_turn_grows(s, m, turn, e.seq);
                assert(turn_sound(n, turn));
            },
            SessionEvent::ToolStarted(c) => {
                assert(turn_sound(n, n.active->0));
            },
            SessionEvent::ToolFinished(r) => {
                let turn = n.active->0;
                let m = turn.messages.last();
                assert(turn.messages.drop_last() =~= s.active->0.messages);
                assert(waiting(turn.messages) == Some(turn.unresolved));
                assert(asked_ids(turn.messages) =~= asked_ids(s.active->0.messages));
                lemma_turn_grows(s, m, turn, e.seq);
                assert(turn_sound(n, turn));
            },
            SessionEvent::TurnCompleted => {
                let turn = s.active->0;
                lemma_context_grows(
                    s.committed,
                    s.completed,
                    s.meta.last_seq,
                    turn.messages,
                    e.seq,
                );
                lemma_boundary_added(n.committed, s.completed, s.meta.last_seq, n.completed.last());
            },
            SessionEvent::ContextReset { new_epoch } => {
                assert(n.committed.len() == 0);
            },
            SessionEvent::ContextCompacted(c) => {
                let k = slot_of(boundaries(s.completed), (c.through_turn_id, c.through_seq));
                lemma_slot(boundaries(s.completed), (c.through_turn_id, c.through_seq));
                lemma_context_cut(s.committed, s.completed, s.meta.last_seq, k);
                assert(s.completed[k].completed_seq == c.through_seq);
                lemma_turns_after(s.completed, k);
            },
            SessionEvent::BranchSummary { branch_id, from_seq, summary, summary_model } => {
                let more = seq![n.committed.last()];
                assert(n.committed =~= s.committed + more);
                assert(more.drop_last() =~= Seq::<StoredView>::empty());
                reveal_with_fuel(waiting, 2);
                assert(settled(more));
                lemma_context_grows(s.committed, s.completed, s.meta.last_seq, more, e.seq);
            },
            _ => {},
        }
    }
}

} // verus!
