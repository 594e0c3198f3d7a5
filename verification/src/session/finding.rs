//! What holds of listing sessions, of finding one, and of exporting one.
use crate::ids::hyphenated;
use crate::llm::protocol::{calls_json, MessageView};
use crate::paths::same_path;
use crate::pieces::{lemma_both, lemma_none, lemma_within, stand_in_order};
use crate::session::event::EventEnvelope;
use crate::session::manager::{
    collected, fork_cutoff, last_completion, latest_on_top, listing, matching, newest_first_sorts,
    resolution,
};
use crate::session::model::{
    kind_label, markdown_body, markdown_head, ItemView, SessionId, SummaryView,
};
use crate::session::projection::{message_tokens, optional_len, total_tokens};
use crate::text::{begins, trimmed};
use vstd::prelude::*;

verus! {

/// A session belongs on a list: its workspace is the one that is asked for, if one is.
pub open spec fn is_asked_for(s: SummaryView, workspace: Option<Seq<char>>) -> bool {
    workspace matches Some(path) ==> same_path(path, s.workspace)
}

/// A session of the list is one that was found, marked as archived where it was
/// archived or was found among the archived ones, and the same in everything else.
pub open spec fn is_listed_as(s: SummaryView, found: SummaryView, archived: bool) -> bool {
    s == (SummaryView { archived: s.archived, ..found }) && (s.archived <==> archived
        || found.archived)
}

/// Of what was found, every session that is asked for is listed, and no other.
pub proof fn what_was_found_is_collected(
    found: Seq<SummaryView>,
    archived: bool,
    workspace: Option<Seq<char>>,
)
    ensures
        ({
            let list = collected(found, archived, workspace);
            &&& list.len() <= found.len()
            &&& forall|i: int|
                0 <= i < list.len() ==> exists|k: int|
                    0 <= k < found.len() && is_asked_for(found[k], workspace) && is_listed_as(
                        #[trigger] list[i],
                        #[trigger] found[k],
                        archived,
                    )
            &&& forall|k: int|
                0 <= k < found.len() && is_asked_for(#[trigger] found[k], workspace) ==> exists|
                    i: int,
                |
                    0 <= i < list.len() && is_listed_as(#[trigger] list[i], found[k], archived)
        }),
    decreases found.len(),
{
    let list = collected(found, archived, workspace);
    if found.len() > 0 {
        let t = found.drop_last();
        let before = collected(t, archived, workspace);
        what_was_found_is_collected(t, archived, workspace);
        assert forall|i: int| 0 <= i < list.len() implies exists|k: int|
            0 <= k < found.len() && is_asked_for(found[k], workspace) && is_listed_as(
                #[trigger] list[i],
                #[trigger] found[k],
                archived,
            ) by {
            if i < before.len() {
                assert(before[i] == list[i]);
                let k = choose|k: int|
                    0 <= k < t.len() && is_asked_for(t[k], workspace) && is_listed_as(
                        before[i],
                        #[trigger] t[k],
                        archived,
                    );
                assert(found[k] == t[k]);
            } else {
                assert(is_listed_as(list[i], found[found.len() - 1], archived));
            }
        }
        assert forall|k: int|
            0 <= k < found.len() && is_asked_for(#[trigger] found[k], workspace) implies exists|
            i: int,
        |
            0 <= i < list.len() && is_listed_as(#[trigger] list[i], found[k], archived) by {
            if k < t.len() {
                assert(t[k] == found[k]);
                let i = choose|i: int|
                    0 <= i < before.len() && is_listed_as(#[trigger] before[i], t[k], archived);
                assert(list[i] == before[i]);
            } else {
                assert(is_listed_as(list[list.len() - 1], found[k], archived));
            }
        }
    }
}

/// The list begins with the session that changed last. It holds every session that is
/// asked for, archived ones only where these are asked for too, and no other.
pub proof fn the_list_holds_what_is_asked_for(
    active: Seq<SummaryView>,
    archived: Seq<SummaryView>,
    workspace: Option<Seq<char>>,
    include_archived: bool,
)
    ensures
        ({
            let list = listing(active, archived, workspace, include_archived);
            let there = collected(active, false, workspace);
            let gone = collected(archived, true, workspace);
            &&& latest_on_top(list)
            &&& include_archived ==> list.to_multiset() == (there + gone).to_multiset()
            &&& !include_archived ==> list.to_multiset() == there.to_multiset()
        }),
{
    let there = collected(active, false, workspace);
    let gone = collected(archived, true, workspace);
    if include_archived {
        newest_first_sorts(there + gone);
    } else {
        assert(there + Seq::<SummaryView>::empty() =~= there);
        newest_first_sorts(there);
    }
}

/// The identifier of a session begins with a prefix.
pub open spec fn fits(s: SummaryView, prefix: Seq<char>) -> bool {
    begins(hyphenated(s.session_id.0), prefix)
}

/// A prefix names a session exactly where it is not empty and one session of the list
/// fits it, and no second one; then that one is found.
pub proof fn a_prefix_names_the_one_that_fits(list: Seq<SummaryView>, prefix: Seq<char>)
    ensures
        ({
            let p = trimmed(prefix);
            &&& resolution(list, prefix) is Ok <==> p.len() > 0 && exists|k: int|
                0 <= k < list.len() && fits(#[trigger] list[k], p) && forall|j: int|
                    0 <= j < list.len() && j != k ==> !fits(#[trigger] list[j], p)
            &&& resolution(list, prefix) matches Ok(id) ==> exists|k: int|
                0 <= k < list.len() && fits(#[trigger] list[k], p) && list[k].session_id == id
        }),
{
    let p = trimmed(prefix);
    lemma_matching(list, p);
    if exists|k: int|
        0 <= k < list.len() && fits(#[trigger] list[k], p) && forall|j: int|
            0 <= j < list.len() && j != k ==> !fits(#[trigger] list[j], p) {
        let k = choose|k: int|
            0 <= k < list.len() && fits(#[trigger] list[k], p) && forall|j: int|
                0 <= j < list.len() && j != k ==> !fits(#[trigger] list[j], p);
        lemma_one_match(list, p, k);
    }
}

proof fn lemma_matching(list: Seq<SummaryView>, p: Seq<char>)
    ensures
        matching(list, p).len() == 1 ==> exists|k: int|
            0 <= k < list.len() && fits(#[trigger] list[k], p) && list[k].session_id == matching(
                list,
                p,
            )[0] && forall|j: int|
                0 <= j < list.len() && j != k ==> !fits(#[trigger] list[j], p),
        matching(list, p).len() == 0 ==> forall|j: int|
            0 <= j < list.len() ==> !fits(#[trigger] list[j], p),
    decreases list.len(),
{
    if list.len() > 0 {
        let t = list.drop_last();
        lemma_matching(t, p);
        let n = list.len() - 1;
        assert(list.last() == list[n]);
        if matching(t, p).len() == 0 {
            assert forall|j: int| 0 <= j < n implies !fits(#[trigger] list[j], p) by {
                assert(t[j] == list[j]);
            }
            if matching(list, p).len() == 1 {
                assert(fits(list[n], p));
            }
        } else if matching(list, p).len() == 1 {
            let k = choose|k: int|
                0 <= k < t.len() && fits(#[trigger] t[k], p) && t[k].session_id == matching(
                    t,
                    p,
                )[0] && forall|j: int| 0 <= j < t.len() && j != k ==> !fits(#[trigger] t[j], p);
            assert(list[k] == t[k]);
            assert forall|j: int| 0 <= j < list.len() && j != k implies !fits(
                #[trigger] list[j],
                p,
            ) by {
                if j < n {
                    assert(t[j] == list[j]);
                }
            }
        }
    }
}

proof fn lemma_one_match(list: Seq<SummaryView>, p: Seq<char>, k: int)
    requires
        0 <= k < list.len(),
        fits(list[k], p),
        forall|j: int| 0 <= j < list.len() && j != k ==> !fits(#[trigger] list[j], p),
    ensures
        matching(list, p) == seq![list[k].session_id],
    decreases list.len(),
{
    let t = list.drop_last();
    let n = list.len() - 1;
    assert(list.last() == list[n]);
    if k == n {
        lemma_no_match(t, p);
        assert(matching(list, p) =~= seq![list[k].session_id]);
    } else {
        assert forall|j: int| 0 <= j < t.len() && j != k implies !fits(#[trigger] t[j], p) by {
            assert(t[j] == list[j]);
        }
        assert(t[k] == list[k]);
        assert(!fits(list[n], p));
        lemma_one_match(t, p, k);
    }
}

proof fn lemma_no_match(list: Seq<SummaryView>, p: Seq<char>)
    requires
        forall|j: int| 0 <= j < list.len() ==> !fits(#[trigger] list[j], p),
    ensures
        matching(list, p) == Seq::<SessionId>::empty(),
    decreases list.len(),
{
    if list.len() > 0 {
        let t = list.drop_last();
        assert forall|j: int| 0 <= j < t.len() implies !fits(#[trigger] t[j], p) by {
            assert(t[j] == list[j]);
        }
        assert(!fits(list[list.len() - 1], p));
        lemma_no_match(t, p);
    }
}

/// A fork is cut where a turn was completed: where the user says, or at the last such
/// place; it is refused where there is none.
pub proof fn a_fork_is_cut_at_a_completed_turn(events: Seq<EventEnvelope>, through: Option<u64>)
    requires
        forall|i: int| 0 <= i < events.len() ==> (#[trigger] events[i]).seq == i + 1,
    ensures
        fork_cutoff(events, through) matches Ok(seq) ==> {
            &&& 1 <= seq <= events.len()
            &&& events[seq - 1].event is TurnCompleted
            &&& through matches Some(asked) ==> seq == asked
            &&& through is None ==> forall|i: int|
                seq <= i < events.len() ==> !((#[trigger] events[i]).event is TurnCompleted)
        },
        through is None ==> (fork_cutoff(events, through) is Ok <==> exists|i: int|
            0 <= i < events.len() && (#[trigger] events[i]).event is TurnCompleted),
{
    lemma_last_completion(events, events.len());
}

proof fn lemma_last_completion(events: Seq<EventEnvelope>, k: nat)
    requires
        k <= events.len(),
        forall|i: int| 0 <= i < events.len() ==> (#[trigger] events[i]).seq == i + 1,
    ensures
        match last_completion(events, k) {
            Some(seq) => 1 <= seq <= k && events[seq - 1].event is TurnCompleted && forall|i: int|
                seq <= i < k ==> !((#[trigger] events[i]).event is TurnCompleted),
            None => forall|i: int|
                0 <= i < k ==> !((#[trigger] events[i]).event is TurnCompleted),
        },
    decreases k,
{
    if k > 0 {
        assert(events[k - 1].seq == k);
        lemma_last_completion(events, (k - 1) as nat);
    }
}

/// What the items of a transcript hold: of each who speaks, and what is said.
pub open spec fn words_of_items(items: Seq<ItemView>) -> Seq<Seq<char>>
    decreases items.len(),
{
    if items.len() == 0 {
        Seq::empty()
    } else {
        words_of_items(items.drop_last()) + seq![
            kind_label(items.last().kind),
            items.last().content,
        ]
    }
}

/// An exported session holds, in order, its title, its identifier, its workspace and
/// its model, and then every item of its transcript, in full.
pub proof fn an_export_holds_the_whole_transcript(s: SummaryView, items: Seq<ItemView>)
    ensures
        stand_in_order(
            markdown_head(s) + markdown_body(items),
            seq![s.title, hyphenated(s.session_id.0), s.workspace, s.model, s.model_id]
                + words_of_items(items),
        ),
{
    let none = Seq::<char>::empty();
    let id = hyphenated(s.session_id.0);
    lemma_within("# "@, s.title, none);
    lemma_within("\n\n- Session: `"@, id, none);
    lemma_within("`\n- Workspace: `"@, s.workspace, none);
    lemma_within("`\n- Model: `"@, s.model, none);
    lemma_within("` / `"@, s.model_id, "`\n\n"@);
    let a = "# "@ + s.title + none;
    let b = "\n\n- Session: `"@ + id + none;
    let c = "`\n- Workspace: `"@ + s.workspace + none;
    let d = "`\n- Model: `"@ + s.model + none;
    let e = "` / `"@ + s.model_id + "`\n\n"@;
    lemma_both(a, seq![s.title], b, seq![id]);
    lemma_both(a + b, seq![s.title] + seq![id], c, seq![s.workspace]);
    lemma_both(a + b + c, seq![s.title] + seq![id] + seq![s.workspace], d, seq![s.model]);
    lemma_both(
        a + b + c + d,
        seq![s.title] + seq![id] + seq![s.workspace] + seq![s.model],
        e,
        seq![s.model_id],
    );
    let head = seq![s.title, id, s.workspace, s.model, s.model_id];
    assert(seq![s.title] + seq![id] + seq![s.workspace] + seq![s.model] + seq![s.model_id]
        =~= head);
    assert(a + b + c + d + e =~= markdown_head(s));
    lemma_items(items);
    lemma_both(markdown_head(s), head, markdown_body(items), words_of_items(items));
}

proof fn lemma_items(items: Seq<ItemView>)
    ensures
        stand_in_order(markdown_body(items), words_of_items(items)),
    decreases items.len(),
{
    if items.len() == 0 {
        lemma_none(markdown_body(items));
    } else {
        let t = items.drop_last();
        let label = kind_label(items.last().kind);
        let content = items.last().content;
        lemma_items(t);
        lemma_within("## "@, label, "\n\n"@);
        lemma_within(Seq::empty(), content, "\n\n"@);
        let a = "## "@ + label + "\n\n"@;
        let b = Seq::<char>::empty() + content + "\n\n"@;
        lemma_both(a, seq![label], b, seq![content]);
        assert(seq![label] + seq![content] =~= seq![label, content]);
        lemma_both(markdown_body(t), words_of_items(t), a + b, seq![label, content]);
        assert(markdown_body(t) + (a + b) =~= markdown_body(items));
    }
}

/// A message is counted as four of its characters a token, rounded up: its words, its
/// reasoning, the identifier of its call and its calls all count, and nothing counts
/// as less than one token.
pub proof fn every_character_is_counted(m: MessageView)
    ensures
        ({
            let characters = m.content.len() + optional_len(m.reasoning_content) + optional_len(
                m.tool_call_id,
            ) + match m.tool_calls {
                Some(calls) => calls_json(calls).len(),
                None => 0,
            };
            &&& message_tokens(m) >= 1
            &&& 4 * message_tokens(m) >= characters
            &&& characters > 0 ==> 4 * message_tokens(m) < characters + 4
            &&& characters == 0 ==> message_tokens(m) == 1
        }),
{
}

/// The messages of two lists count as many tokens together as each list counts.
pub proof fn tokens_add_up(a: Seq<MessageView>, b: Seq<MessageView>)
    ensures
        total_tokens(a + b) == total_tokens(a) + total_tokens(b),
        b.len() == 1 ==> total_tokens(b) == message_tokens(b[0]),
    decreases b.len(),
{
    if b.len() == 0 {
        assert(a + b =~= a);
    } else {
        tokens_add_up(a, b.drop_last());
        assert((a + b).drop_last() =~= a + b.drop_last());
        assert((a + b).last() == b.last());
        if b.len() == 1 {
            assert(b.drop_last() =~= Seq::<MessageView>::empty());
            assert(total_tokens(Seq::<MessageView>::empty()) == 0);
        }
    }
}

} // verus!
