//! What a summarizing model is given when a session is compacted.
use crate::ids::hyphenated;
use crate::json::json_string;
use crate::llm::protocol::{call_json, calls_body, calls_json, CallView, MessageView};
use crate::pieces::{lemma_both, lemma_more, lemma_none, lemma_within, stand_at, stand_in_order};
use crate::session::compaction::KEEP_RECENT_TURNS;
use crate::session::durable::plan_of;
use crate::session::model::CompactionPlan;
use crate::session::projection::{
    compactable, message_text, messages_text, plan_source, turns_text, ProjectionView, StoredView,
    TurnView,
};
use crate::text::{decimal, occurs_at};
use vstd::prelude::*;

verus! {

/// What calls hold that must not be lost: of each its identifier, its name and its
/// arguments, as strings of JSON.
pub open spec fn words_of_calls(calls: Seq<CallView>) -> Seq<Seq<char>>
    decreases calls.len(),
{
    if calls.len() == 0 {
        Seq::empty()
    } else {
        words_of_calls(calls.drop_last()) + seq![
            json_string(calls.last().id),
            json_string(calls.last().name),
            json_string(calls.last().arguments),
        ]
    }
}

/// What a message holds that must not be lost: who speaks, what is said, and what is
/// called.
pub open spec fn words_of_message(m: MessageView) -> Seq<Seq<char>> {
    seq![m.role, m.content] + match m.tool_calls {
        Some(calls) => words_of_calls(calls),
        None => Seq::empty(),
    }
}

/// What messages hold that must not be lost.
pub open spec fn words_of_messages(messages: Seq<StoredView>) -> Seq<Seq<char>>
    decreases messages.len(),
{
    if messages.len() == 0 {
        Seq::empty()
    } else {
        words_of_messages(messages.drop_last()) + words_of_message(messages.last().message)
    }
}

/// What turns hold that must not be lost: of each which one it is, and what its
/// messages hold.
pub open spec fn words_of_turns(turns: Seq<TurnView>) -> Seq<Seq<char>>
    decreases turns.len(),
{
    if turns.len() == 0 {
        Seq::empty()
    } else {
        words_of_turns(turns.drop_last()) + seq![hyphenated(turns.last().id.0)]
            + words_of_messages(turns.last().messages)
    }
}

/// Nothing that a compaction takes out of the context is missing from what the
/// summarizing model is given: the summary so far, where there is one, in full and
/// first, and then every message of every turn but the latest four, in order, with
/// its words in full and its calls.
pub proof fn nothing_is_lost_before_it_is_summarized(s: ProjectionView, plan: CompactionPlan)
    requires
        compactable(s),
        plan_of(s, plan),
    ensures
        s.completed.len() > 4,
        ({
            let leaving = s.completed.take(s.completed.len() - 4);
            &&& plan.through_turn_id == leaving.last().id
            &&& plan.through_seq == leaving.last().completed_seq
            &&& stand_in_order(
                plan.source@,
                (match s.compaction_summary {
                    Some(text) => seq![text],
                    None => Seq::empty(),
                }) + words_of_turns(leaving),
            )
        }),
{
    let leaving = s.completed.take(s.completed.len() - KEEP_RECENT_TURNS);
    lemma_turns(leaving);
    match s.compaction_summary {
        Some(text) => {
            let head = "Previous summary:\n"@ + text + "\n\nNew completed turns:\n"@;
            lemma_within("Previous summary:\n"@, text, "\n\nNew completed turns:\n"@);
            lemma_both(head, seq![text], turns_text(leaving), words_of_turns(leaving));
        },
        None => {
            assert(Seq::<Seq<char>>::empty() + words_of_turns(leaving) =~= words_of_turns(
                leaving,
            ));
            assert(plan_source(None, leaving) =~= turns_text(leaving));
        },
    }
}

/// The words of each message that a compaction takes out of the context stand somewhere
/// in what the summarizing model is given, behind the summary so far.
pub proof fn every_message_is_summarized(
    s: ProjectionView,
    plan: CompactionPlan,
    turn: int,
    message: int,
)
    requires
        compactable(s),
        plan_of(s, plan),
        0 <= turn < s.completed.len() - 4,
        0 <= message < s.completed[turn].messages.len(),
    ensures
        exists|at: int|
            {
                &&& #[trigger] occurs_at(
                    plan.source@,
                    s.completed[turn].messages[message].message.content,
                    at,
                )
                &&& s.compaction_summary matches Some(text) ==> exists|before: int|
                    #[trigger] occurs_at(plan.source@, text, before) && before + text.len() <= at
            },
{
    nothing_is_lost_before_it_is_summarized(s, plan);
    let leaving = s.completed.take(s.completed.len() - 4);
    let words = words_of_turns(leaving);
    let head = match s.compaction_summary {
        Some(text) => seq![text],
        None => Seq::<Seq<char>>::empty(),
    };
    let places = choose|places: Seq<int>| stand_at(plan.source@, head + words, places);
    let k = lemma_word_of_turns(leaving, turn, message);
    let content = s.completed[turn].messages[message].message.content;
    assert((head + words)[head.len() + k] == content);
    assert(occurs_at(plan.source@, content, places[head.len() + k]));
    if let Some(text) = s.compaction_summary {
        assert((head + words)[0] == text);
        assert(places[0] + (head + words)[0].len() <= places[head.len() + k]);
        assert(occurs_at(plan.source@, text, places[0]));
    }
}

proof fn lemma_word_of_messages(messages: Seq<StoredView>, j: int) -> (k: int)
    requires
        0 <= j < messages.len(),
    ensures
        0 <= k < words_of_messages(messages).len(),
        words_of_messages(messages)[k] == messages[j].message.content,
    decreases messages.len(),
{
    if j == messages.len() - 1 {
        (words_of_messages(messages.drop_last()).len() + 1) as int
    } else {
        assert(messages.drop_last()[j] == messages[j]);
        lemma_word_of_messages(messages.drop_last(), j)
    }
}

proof fn lemma_word_of_turns(turns: Seq<TurnView>, i: int, j: int) -> (k: int)
    requires
        0 <= i < turns.len(),
        0 <= j < turns[i].messages.len(),
    ensures
        0 <= k < words_of_turns(turns).len(),
        words_of_turns(turns)[k] == turns[i].messages[j].message.content,
    decreases turns.len(),
{
    if i == turns.len() - 1 {
        let k = lemma_word_of_messages(turns[i].messages, j);
        words_of_turns(turns.drop_last()).len() + 1 + k
    } else {
        assert(turns.drop_last()[i] == turns[i]);
        lemma_word_of_turns(turns.drop_last(), i, j)
    }
}

proof fn lemma_call(call: CallView)
    ensures
        stand_in_order(
            call_json(call),
            seq![json_string(call.id), json_string(call.name), json_string(call.arguments)],
        ),
{
    let id = json_string(call.id);
    let name = json_string(call.name);
    let arguments = json_string(call.arguments);
    let none = Seq::<char>::empty();
    let middle = ",\"type\":"@ + json_string(call.call_type) + ",\"function\":{\"name\":"@;
    lemma_within("{\"id\":"@, id, none);
    lemma_within(middle, name, none);
    lemma_within(",\"arguments\":"@, arguments, "}}"@);
    let a = "{\"id\":"@ + id + none;
    let b = middle + name + none;
    let c = ",\"arguments\":"@ + arguments + "}}"@;
    lemma_both(a, seq![id], b, seq![name]);
    lemma_both(a + b, seq![id] + seq![name], c, seq![arguments]);
    assert(a + b + c =~= call_json(call));
    assert(seq![id] + seq![name] + seq![arguments] =~= seq![id, name, arguments]);
}

proof fn lemma_calls(calls: Seq<CallView>)
    ensures
        stand_in_order(calls_body(calls), words_of_calls(calls)),
    decreases calls.len(),
{
    if calls.len() == 0 {
        lemma_none(calls_body(calls));
    } else {
        let last = calls.last();
        let words = seq![
            json_string(last.id),
            json_string(last.name),
            json_string(last.arguments),
        ];
        lemma_call(last);
        if calls.len() == 1 {
            assert(words_of_calls(calls.drop_last()) =~= Seq::<Seq<char>>::empty());
            assert(words_of_calls(calls) =~= words);
        } else {
            lemma_calls(calls.drop_last());
            lemma_more(calls_body(calls.drop_last()), words_of_calls(calls.drop_last()), ","@);
            lemma_both(
                calls_body(calls.drop_last()) + ","@,
                words_of_calls(calls.drop_last()),
                call_json(last),
                words,
            );
        }
    }
}

proof fn lemma_message(m: MessageView)
    ensures
        stand_in_order(message_text(m), words_of_message(m)),
{
    let none = Seq::<char>::empty();
    lemma_within(none, m.role, ": "@);
    lemma_within(none, m.content, none);
    let a = none + m.role + ": "@;
    let b = none + m.content + none;
    lemma_both(a, seq![m.role], b, seq![m.content]);
    assert(seq![m.role] + seq![m.content] =~= seq![m.role, m.content]);
    match m.tool_calls {
        None => {
            lemma_more(a + b, seq![m.role, m.content], seq!['\n']);
            assert(words_of_message(m) =~= seq![m.role, m.content]);
            assert(a + b + seq!['\n'] =~= message_text(m));
        },
        Some(calls) => {
            lemma_calls(calls);
            let open = "\ntool_calls: "@ + "["@;
            lemma_none(open);
            lemma_both(open, Seq::empty(), calls_body(calls), words_of_calls(calls));
            assert(Seq::<Seq<char>>::empty() + words_of_calls(calls) =~= words_of_calls(calls));
            lemma_more(open + calls_body(calls), words_of_calls(calls), "]"@ + seq!['\n']);
            let c = open + calls_body(calls) + ("]"@ + seq!['\n']);
            lemma_both(a + b, seq![m.role, m.content], c, words_of_calls(calls));
            assert(a + b + c =~= message_text(m)) by {
                assert(calls_json(calls) =~= "["@ + calls_body(calls) + "]"@);
            }
        },
    }
}

proof fn lemma_messages(messages: Seq<StoredView>)
    ensures
        stand_in_order(messages_text(messages), words_of_messages(messages)),
    decreases messages.len(),
{
    if messages.len() == 0 {
        lemma_none(messages_text(messages));
    } else {
        lemma_messages(messages.drop_last());
        lemma_message(messages.last().message);
        lemma_both(
            messages_text(messages.drop_last()),
            words_of_messages(messages.drop_last()),
            message_text(messages.last().message),
            words_of_message(messages.last().message),
        );
    }
}

proof fn lemma_turns(turns: Seq<TurnView>)
    ensures
        stand_in_order(turns_text(turns), words_of_turns(turns)),
    decreases turns.len(),
{
    if turns.len() == 0 {
        lemma_none(turns_text(turns));
    } else {
        let t = turns.last();
        let before = turns.drop_last();
        lemma_turns(before);
        let id = hyphenated(t.id.0);
        let rest = " (seq "@ + decimal(t.started_seq as nat) + "-"@ + decimal(
            t.completed_seq as nat,
        ) + "):\n"@;
        lemma_within("\nTurn "@, id, rest);
        let head = "\nTurn "@ + id + rest;
        lemma_both(turns_text(before), words_of_turns(before), head, seq![id]);
        lemma_messages(t.messages);
        lemma_both(
            turns_text(before) + head,
            words_of_turns(before) + seq![id],
            messages_text(t.messages),
            words_of_messages(t.messages),
        );
        assert(turns_text(before) + head + messages_text(t.messages) =~= turns_text(turns));
    }
}

} // verus!
