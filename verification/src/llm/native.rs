//! What the Anthropic form of a conversation, of a response and of a stream holds.
use crate::llm::anthropic::{
    called_in, calls_or_none, event_step, input_of, native_of, natives_of, said_in, system_parts,
    whole_calls, BlockView, ContentBlock, EventView, NativeView,
};
use crate::llm::protocol::{CallView, MessageView};
use crate::llm::stream::{
    amended, blank_builder, by_index, calls_stay_in_order, entered, gathered, part_taken,
    text_or_empty, AnswerView, BuilderView,
};
use crate::llm::whole::{blank_answer, flow, holds, lemma_amended_holds, lemma_in_place};
use vstd::prelude::*;

verus! {

/// The answer that a stream of events amounts to, or what is wrong with it.
pub open spec fn native_streamed(events: Seq<EventView>) -> Result<AnswerView, Seq<char>>
    decreases events.len(),
{
    if events.len() == 0 {
        Ok(blank_answer())
    } else {
        match native_streamed(events.drop_last()) {
            Err(m) => Err(m),
            Ok(a) => match event_step(a, events.last()) {
                Err(m) => Err(m),
                Ok(o) => Ok(o.answer),
            },
        }
    }
}

/// The texts that a stream reports while it comes in.
pub open spec fn native_reported(events: Seq<EventView>) -> Seq<Seq<char>>
    decreases events.len(),
{
    if events.len() == 0 {
        Seq::empty()
    } else {
        let before = native_reported(events.drop_last());
        match native_streamed(events.drop_last()) {
            Err(_) => before,
            Ok(a) => match event_step(a, events.last()) {
                Err(_) => before,
                Ok(o) => match o.said {
                    Some(text) => before.push(text),
                    None => before,
                },
            },
        }
    }
}

/// The event brings more of a block, and of which sort.
pub open spec fn is_delta(e: EventView, sort: Seq<char>) -> bool {
    e.kind == Some("content_block_delta"@) && e.has_delta && e.delta_kind == Some(sort)
}

/// The event begins a call.
pub open spec fn is_call_start(e: EventView) -> bool {
    e.kind == Some("content_block_start"@) && e.has_block && e.block_kind == Some("tool_use"@)
}

/// The index of an event: the first, where it names none.
pub open spec fn event_index(e: EventView) -> usize {
    match e.index {
        Some(n) => n as usize,
        None => 0,
    }
}

/// The texts that a stream brings, in order.
pub open spec fn text_deltas(events: Seq<EventView>) -> Seq<Seq<char>>
    decreases events.len(),
{
    if events.len() == 0 {
        Seq::empty()
    } else {
        let before = text_deltas(events.drop_last());
        match events.last().text {
            Some(text) => if is_delta(events.last(), "text_delta"@) {
                before.push(text)
            } else {
                before
            },
            None => before,
        }
    }
}

/// The pieces of reasoning that a stream brings, in order.
pub open spec fn thinking_deltas(events: Seq<EventView>) -> Seq<Seq<char>>
    decreases events.len(),
{
    if events.len() == 0 {
        Seq::empty()
    } else {
        let before = thinking_deltas(events.drop_last());
        match events.last().thinking {
            Some(text) => if is_delta(events.last(), "thinking_delta"@) {
                before.push(text)
            } else {
                before
            },
            None => before,
        }
    }
}

/// The pieces of the arguments of the call of an index, in order.
pub open spec fn argument_deltas(events: Seq<EventView>, index: usize) -> Seq<Seq<char>>
    decreases events.len(),
{
    if events.len() == 0 {
        Seq::empty()
    } else {
        let before = argument_deltas(events.drop_last(), index);
        match events.last().partial_json {
            Some(text) => if is_delta(events.last(), "input_json_delta"@) && event_index(
                events.last(),
            ) == index {
                before.push(text)
            } else {
                before
            },
            None => before,
        }
    }
}

/// The last event that begins the call of an index.
pub open spec fn last_start(events: Seq<EventView>, index: usize) -> Option<EventView>
    decreases events.len(),
{
    if events.len() == 0 {
        None
    } else if is_call_start(events.last()) && event_index(events.last()) == index {
        Some(events.last())
    } else {
        last_start(events.drop_last(), index)
    }
}

/// Something came in of the call of an index.
pub open spec fn is_touched(events: Seq<EventView>, index: usize) -> bool {
    last_start(events, index) is Some || argument_deltas(events, index).len() > 0
}

/// What came in of the call of an index: the identifier and the name with which it
/// began, and the pieces of its arguments in one.
pub open spec fn is_call_of(b: BuilderView, events: Seq<EventView>, index: usize) -> bool {
    &&& b.index == index
    &&& match last_start(events, index) {
        Some(e) => b.id == text_or_empty(e.block_id) && b.name == text_or_empty(e.block_name),
        None => b.id.len() == 0 && b.name.len() == 0,
    }
    &&& b.arguments == flow(argument_deltas(events, index))
}

/// The event lacks what its kind has to bring.
pub open spec fn is_broken(e: EventView) -> bool {
    ||| e.kind == Some("content_block_start"@) && (e.index is None || !e.has_block)
    ||| e.kind == Some("content_block_delta"@) && !e.has_delta
}

/// A stream amounts to what it brought: its text is all its text deltas in one, which
/// are just the texts that were reported; its reasoning is all its thinking deltas
/// in one; and there is one call for each index of which something came in, in the
/// order of the indices, with the identifier and the name with which it began and
/// with the pieces of its arguments in the order in which they came in.
pub proof fn a_native_stream_amounts_to_what_it_brought(events: Seq<EventView>)
    requires
        native_streamed(events) is Ok,
    ensures
        ({
            let answer = native_streamed(events)->Ok_0;
            &&& answer.content == flow(text_deltas(events))
            &&& native_reported(events) == text_deltas(events)
            &&& answer.reasoning == flow(thinking_deltas(events))
            &&& answer.usage is None
            &&& by_index(answer.calls)
            &&& forall|index: usize|
                #![trigger is_touched(events, index)]
                is_touched(events, index) <==> holds(answer.calls, index)
            &&& forall|j: int|
                0 <= j < answer.calls.len() ==> is_call_of(
                    #[trigger] answer.calls[j],
                    events,
                    answer.calls[j].index,
                )
        }),
{
    let answer = native_streamed(events)->Ok_0;
    lemma_words(events);
    lemma_native_call(events, 0);
    assert forall|index: usize|
        #![trigger is_touched(events, index)]
        is_touched(events, index) <==> holds(answer.calls, index) by {
        lemma_native_call(events, index);
    }
    assert forall|j: int| 0 <= j < answer.calls.len() implies is_call_of(
        #[trigger] answer.calls[j],
        events,
        answer.calls[j].index,
    ) by {
        lemma_native_call(events, answer.calls[j].index);
        lemma_in_place(answer.calls, j);
    }
}

/// A stream fails exactly where one of its events lacks what it has to bring.
pub proof fn a_native_stream_fails_at_a_broken_event(events: Seq<EventView>)
    ensures
        native_streamed(events) is Err <==> exists|i: int|
            0 <= i < events.len() && is_broken(#[trigger] events[i]),
    decreases events.len(),
{
    if events.len() > 0 {
        let t = events.drop_last();
        a_native_stream_fails_at_a_broken_event(t);
        lemma_kinds();
        if native_streamed(t) is Err {
            let i = choose|i: int| 0 <= i < t.len() && is_broken(#[trigger] t[i]);
            assert(is_broken(events[i]));
        } else {
            assert forall|i: int| 0 <= i < t.len() implies !is_broken(#[trigger] events[i]) by {
                assert(events[i] == t[i]);
            }
            assert(events.last() == events[events.len() - 1]);
        }
    }
}

/// A stream has come to its end exactly with the event that stops the message, which
/// adds nothing to the answer.
pub proof fn a_native_stream_ends_where_it_says(a: AnswerView, e: EventView)
    requires
        event_step(a, e) is Ok,
    ensures
        event_step(a, e)->Ok_0.last <==> e.kind == Some("message_stop"@),
        e.kind == Some("message_stop"@) ==> event_step(a, e)->Ok_0.answer == a,
{
    lemma_kinds();
}

/// The calls of a stream are handed out exactly where each has its identifier and its
/// name, and then one for one: with these, and with the arguments that came in, or
/// with an empty object where none came in.
pub proof fn native_calls_are_handed_out_whole(s: Seq<BuilderView>)
    ensures
        whole_calls(s) is None <==> exists|i: int|
            0 <= i < s.len() && ((#[trigger] s[i]).id.len() == 0 || s[i].name.len() == 0),
        whole_calls(s) matches Some(calls) ==> {
            &&& calls.len() == s.len()
            &&& forall|i: int|
                0 <= i < s.len() ==> {
                    &&& (#[trigger] calls[i]).id == s[i].id
                    &&& calls[i].name == s[i].name
                    &&& calls[i].call_type == "function"@
                    &&& s[i].arguments.len() > 0 ==> calls[i].arguments == s[i].arguments
                    &&& s[i].arguments.len() == 0 ==> calls[i].arguments == "{}"@
                }
        },
{
    assert forall|i: int| 0 <= i < s.len() implies ((#[trigger] s[i]).id.len() * s[i].name.len() == 0
        <==> s[i].id.len() == 0 || s[i].name.len() == 0) by {
        let a = s[i].id.len() as int;
        let b = s[i].name.len() as int;
        assert(a * b == 0 <==> a == 0 || b == 0) by (nonlinear_arith);
    }
}

/// What a response says is what its parts say, one behind the other: a text is said as
/// it is and calls nothing, a call says nothing and is called as it is, and other
/// blocks do neither.
pub proof fn a_response_is_its_blocks(a: Seq<ContentBlock>, b: Seq<ContentBlock>, c: ContentBlock)
    ensures
        said_in(a + b) == said_in(a) + said_in(b),
        called_in(a + b) == called_in(a) + called_in(b),
        said_in(seq![c]) == match c {
            ContentBlock::Text { text } => text@,
            _ => Seq::empty(),
        },
        match c {
            ContentBlock::ToolUse { id, name, input } => {
                let calls = called_in(seq![c]);
                &&& calls.len() == 1
                &&& calls[0].id == id@
                &&& calls[0].name == name@
                &&& calls[0].arguments == input@
            },
            _ => called_in(seq![c]).len() == 0,
        },
    decreases b.len(),
{
    let one = seq![c];
    assert(one.drop_last() =~= Seq::<ContentBlock>::empty());
    reveal_with_fuel(said_in, 2);
    reveal_with_fuel(called_in, 2);
    match c {
        ContentBlock::Text { text } => {
            assert(said_in(one) =~= text@);
        },
        _ => {},
    }
    if b.len() == 0 {
        assert(a + b =~= a);
        assert(said_in(a) + said_in(b) =~= said_in(a));
        assert(called_in(a) + called_in(b) =~= called_in(a));
    } else {
        a_response_is_its_blocks(a, b.drop_last(), c);
        assert((a + b).drop_last() =~= a + b.drop_last());
        assert((a + b).last() == b.last());
        assert(said_in(a + b) =~= said_in(a) + said_in(b));
        assert(called_in(a + b) =~= called_in(a) + called_in(b));
    }
}

/// A conversation is sent message for message, in order, and so are the words that
/// the system messages hold.
pub proof fn a_conversation_is_sent_in_order(a: Seq<MessageView>, b: Seq<MessageView>)
    ensures
        natives_of(a + b) == natives_of(a) + natives_of(b),
        system_parts(a + b) == system_parts(a) + system_parts(b),
    decreases b.len(),
{
    if b.len() == 0 {
        assert(a + b =~= a);
        assert(natives_of(a) + natives_of(b) =~= natives_of(a));
        assert(system_parts(a) + system_parts(b) =~= system_parts(a));
    } else {
        a_conversation_is_sent_in_order(a, b.drop_last());
        assert((a + b).drop_last() =~= a + b.drop_last());
        assert((a + b).last() == b.last());
        assert(natives_of(a + b) =~= natives_of(a) + natives_of(b));
        assert(system_parts(a + b) =~= system_parts(a) + system_parts(b));
    }
}

/// A block asks for a call.
pub open spec fn asks_for(b: BlockView, call: CallView) -> bool {
    b matches BlockView::ToolUse { id, name, input } && id == call.id && name == call.name
        && input == input_of(call.arguments)
}

/// Nothing of a message is lost where it is sent: a system message's words go to the
/// system part and nowhere else; an answer keeps its words and then its calls, one for
/// one, and is left out only where it has neither; a result names its call and keeps
/// its words; and whatever else was said is said by the user, word for word.
pub proof fn a_message_is_sent_whole(m: MessageView)
    ensures
        ({
            let sent = natives_of(seq![m]);
            let calls = calls_or_none(m.tool_calls);
            let words: int = if m.content.len() > 0 {
                1
            } else {
                0
            };
            if m.role == "system"@ {
                &&& sent.len() == 0
                &&& m.content.len() > 0 ==> system_parts(seq![m]) == seq![m.content]
                &&& m.content.len() == 0 ==> system_parts(seq![m]).len() == 0
            } else {
                &&& system_parts(seq![m]).len() == 0
                &&& if m.role == "assistant"@ {
                    if m.content.len() == 0 && calls.len() == 0 {
                        sent.len() == 0
                    } else {
                        &&& sent.len() == 1
                        &&& sent[0].role == "assistant"@
                        &&& sent[0].content.len() == words + calls.len()
                        &&& m.content.len() > 0 ==> sent[0].content[0] == (BlockView::Text {
                            text: m.content,
                        })
                        &&& forall|i: int|
                            0 <= i < calls.len() ==> asks_for(
                                sent[0].content[words + i],
                                #[trigger] calls[i],
                            )
                    }
                } else if m.role == "tool"@ {
                    &&& sent.len() == 1
                    &&& sent[0].role == "user"@
                    &&& sent[0].content == seq![
                        BlockView::ToolResult {
                            tool_use_id: text_or_empty(m.tool_call_id),
                            content: m.content,
                        },
                    ]
                } else {
                    &&& sent.len() == 1
                    &&& sent[0].role == "user"@
                    &&& sent[0].content == seq![BlockView::Text { text: m.content }]
                }
            }
        }),
{
    let one = seq![m];
    assert(one.drop_last() =~= Seq::<MessageView>::empty());
    reveal_with_fuel(natives_of, 2);
    reveal_with_fuel(system_parts, 2);
    assert(natives_of(one) =~= match native_of(m) {
        Some(n) => seq![n],
        None => Seq::<NativeView>::empty(),
    });
    if m.role == "system"@ && m.content.len() > 0 {
        assert(system_parts(one) =~= seq![m.content]);
    }
}

proof fn lemma_kinds()
    ensures
        "content_block_start"@ != "content_block_delta"@,
        "content_block_start"@ != "message_stop"@,
        "content_block_delta"@ != "message_stop"@,
        "text_delta"@ != "thinking_delta"@,
        "text_delta"@ != "input_json_delta"@,
        "thinking_delta"@ != "input_json_delta"@,
{
    reveal_strlit("content_block_start");
    reveal_strlit("content_block_delta");
    reveal_strlit("message_stop");
    reveal_strlit("text_delta");
    reveal_strlit("thinking_delta");
    reveal_strlit("input_json_delta");
    assert("content_block_start"@.len() == 19);
    assert("content_block_delta"@.len() == 19);
    assert("message_stop"@.len() == 12);
    assert("text_delta"@.len() == 10);
    assert("thinking_delta"@.len() == 14);
    assert("input_json_delta"@.len() == 16);
    assert("content_block_start"@[14] == 's');
    assert("content_block_delta"@[14] == 'd');
}

proof fn lemma_words(events: Seq<EventView>)
    requires
        native_streamed(events) is Ok,
    ensures
        ({
            let answer = native_streamed(events)->Ok_0;
            &&& answer.content == flow(text_deltas(events))
            &&& native_reported(events) == text_deltas(events)
            &&& answer.reasoning == flow(thinking_deltas(events))
            &&& answer.usage is None
        }),
    decreases events.len(),
{
    if events.len() > 0 {
        let t = events.drop_last();
        let e = events.last();
        lemma_words(t);
        lemma_kinds();
        if is_delta(e, "text_delta"@) && e.text is Some {
            assert(text_deltas(events).drop_last() =~= text_deltas(t));
        }
        if is_delta(e, "thinking_delta"@) && e.thinking is Some {
            assert(thinking_deltas(events).drop_last() =~= thinking_deltas(t));
        }
    }
}

proof fn lemma_native_call(events: Seq<EventView>, index: usize)
    requires
        native_streamed(events) is Ok,
    ensures
        ({
            let calls = native_streamed(events)->Ok_0.calls;
            &&& by_index(calls)
            &&& holds(calls, index) <==> is_touched(events, index)
            &&& is_call_of(gathered(calls, index), events, index)
        }),
    decreases events.len(),
{
    let calls = native_streamed(events)->Ok_0.calls;
    if events.len() == 0 {
        assert(entered(calls, index) =~= seq![blank_builder(index)]);
    } else {
        let t = events.drop_last();
        let e = events.last();
        let before = native_streamed(t)->Ok_0.calls;
        lemma_native_call(t, index);
        lemma_kinds();
        let at = event_index(e);
        if is_call_start(e) {
            lemma_native_call(t, at);
            let new = BuilderView {
                id: text_or_empty(e.block_id),
                name: text_or_empty(e.block_name),
                ..gathered(before, at)
            };
            calls_stay_in_order(before, new, index);
            lemma_amended_holds(before, new, index);
            assert(calls == amended(before, new));
        } else if is_delta(e, "input_json_delta"@) && e.partial_json is Some {
            lemma_native_call(t, at);
            let text = e.partial_json->0;
            let new = part_taken(gathered(before, at), None, None, Some(text));
            calls_stay_in_order(before, new, index);
            lemma_amended_holds(before, new, index);
            assert(calls == amended(before, new));
            if at == index {
                assert(argument_deltas(events, index).drop_last() =~= argument_deltas(t, index));
            }
        } else {
            assert(calls == before);
        }
    }
}

} // verus!
