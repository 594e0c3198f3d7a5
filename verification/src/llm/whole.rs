//! What a stream amounts to as a whole.
use crate::llm::protocol::usage_normalized;
use crate::llm::stream::{
    amended, by_index, call_of, calls_of, calls_stay_in_order, choice_texts, entered,
    function_arguments, function_name, gathered, lemma_place, lemma_place_bounds, part_taken,
    place_of, text_or_empty, with_chunk, with_choices, with_parts, AnswerView, BuilderView,
    StreamChoice, StreamChunk, StreamToolCall,
};
use crate::text::maybe;
use vstd::prelude::*;

verus! {

/// An answer of which nothing has come in.
pub open spec fn blank_answer() -> AnswerView {
    AnswerView {
        content: Seq::empty(),
        reasoning: Seq::empty(),
        calls: Seq::empty(),
        usage: None,
    }
}

/// The answer that a stream of events amounts to.
pub open spec fn streamed(chunks: Seq<StreamChunk>) -> AnswerView
    decreases chunks.len(),
{
    if chunks.len() == 0 {
        blank_answer()
    } else {
        with_chunk(streamed(chunks.drop_last()), chunks.last())
    }
}

/// The texts that a stream reports.
pub open spec fn reported(chunks: Seq<StreamChunk>) -> Seq<Seq<char>>
    decreases chunks.len(),
{
    if chunks.len() == 0 {
        Seq::empty()
    } else {
        reported(chunks.drop_last()) + choice_texts(chunks.last().choices@)
    }
}

/// Texts in one.
pub open spec fn flow(pieces: Seq<Seq<char>>) -> Seq<char>
    decreases pieces.len(),
{
    if pieces.len() == 0 {
        Seq::empty()
    } else {
        flow(pieces.drop_last()) + pieces.last()
    }
}

/// The parts of calls that some choices bring.
pub open spec fn choice_parts(choices: Seq<StreamChoice>) -> Seq<StreamToolCall>
    decreases choices.len(),
{
    if choices.len() == 0 {
        Seq::empty()
    } else {
        choice_parts(choices.drop_last()) + choices.last().delta.tool_calls@
    }
}

/// The parts of calls that a stream brings, in the order in which they arrive.
pub open spec fn arrived(chunks: Seq<StreamChunk>) -> Seq<StreamToolCall>
    decreases chunks.len(),
{
    if chunks.len() == 0 {
        Seq::empty()
    } else {
        arrived(chunks.drop_last()) + choice_parts(chunks.last().choices@)
    }
}

/// A part of the call of an index has arrived.
pub open spec fn is_seen(parts: Seq<StreamToolCall>, index: usize) -> bool {
    exists|i: int| 0 <= i < parts.len() && (#[trigger] parts[i]).index == index
}

/// The first identifier of the call of an index that is not empty; nothing where
/// there is none.
pub open spec fn first_id(parts: Seq<StreamToolCall>, index: usize) -> Seq<char>
    decreases parts.len(),
{
    if parts.len() == 0 {
        Seq::empty()
    } else {
        let before = first_id(parts.drop_last(), index);
        if before.len() == 0 && parts.last().index == index {
            text_or_empty(maybe(parts.last().id))
        } else {
            before
        }
    }
}

/// The pieces of the name of the call of an index, in one.
pub open spec fn whole_name(parts: Seq<StreamToolCall>, index: usize) -> Seq<char>
    decreases parts.len(),
{
    if parts.len() == 0 {
        Seq::empty()
    } else {
        let before = whole_name(parts.drop_last(), index);
        if parts.last().index == index {
            before + text_or_empty(function_name(parts.last().function))
        } else {
            before
        }
    }
}

/// The pieces of the arguments of the call of an index, in one.
pub open spec fn whole_arguments(parts: Seq<StreamToolCall>, index: usize) -> Seq<char>
    decreases parts.len(),
{
    if parts.len() == 0 {
        Seq::empty()
    } else {
        let before = whole_arguments(parts.drop_last(), index);
        if parts.last().index == index {
            before + text_or_empty(function_arguments(parts.last().function))
        } else {
            before
        }
    }
}

/// What the parts say of the call of an index.
pub open spec fn whole_call(parts: Seq<StreamToolCall>, index: usize) -> BuilderView {
    BuilderView {
        index,
        id: first_id(parts, index),
        name: whole_name(parts, index),
        arguments: whole_arguments(parts, index),
    }
}

/// The calls hold one of the index.
pub open spec fn holds(s: Seq<BuilderView>, index: usize) -> bool {
    exists|i: int| 0 <= i < s.len() && (#[trigger] s[i]).index == index
}

/// The call of an index lacks its identifier or its name.
pub open spec fn is_lacking(parts: Seq<StreamToolCall>, index: usize) -> bool {
    is_seen(parts, index) && (first_id(parts, index).len() == 0 || whole_name(parts, index).len()
        == 0)
}

pub proof fn lemma_amended_holds(s: Seq<BuilderView>, new: BuilderView, other: usize)
    ensures
        holds(amended(s, new), other) <==> holds(s, other) || other == new.index,
{
    let k = place_of(s, new.index);
    let e = entered(s, new.index);
    let a = amended(s, new);
    lemma_place_bounds(s, new.index);
    assert(a[k] == new);
    if holds(s, other) {
        let i = choose|i: int| 0 <= i < s.len() && (#[trigger] s[i]).index == other;
        if k < s.len() && s[k].index == new.index {
            assert(a[i].index == other);
        } else if i < k {
            assert(e[i] == s[i]);
            assert(a[i] == s[i]);
        } else {
            assert(e[i + 1] == s[i]);
            assert(a[i + 1] == s[i]);
        }
    }
    if holds(a, other) && other != new.index {
        let i = choose|i: int| 0 <= i < a.len() && (#[trigger] a[i]).index == other;
        assert(i != k);
        if k < s.len() && s[k].index == new.index {
            assert(s[i] == a[i]);
        } else if i < k {
            assert(s[i] == a[i]);
        } else {
            assert(s[i - 1] == a[i]);
        }
    }
}

/// In calls that stand in order, each is what was gathered under its index.
pub proof fn lemma_in_place(s: Seq<BuilderView>, j: int)
    requires
        by_index(s),
        0 <= j < s.len(),
    ensures
        gathered(s, s[j].index) == s[j],
{
    lemma_place(s, s[j].index, j);
}

proof fn lemma_gathered(parts: Seq<StreamToolCall>, index: usize)
    ensures
        by_index(with_parts(Seq::empty(), parts)),
        holds(with_parts(Seq::empty(), parts), index) <==> is_seen(parts, index),
        gathered(with_parts(Seq::empty(), parts), index) == whole_call(parts, index),
    decreases parts.len(),
{
    let s = with_parts(Seq::empty(), parts);
    if parts.len() > 0 {
        let t = parts.drop_last();
        let p = parts.last();
        let before = with_parts(Seq::empty(), t);
        lemma_gathered(t, index);
        lemma_gathered(t, p.index);
        let new = part_taken(
            gathered(before, p.index),
            maybe(p.id),
            function_name(p.function),
            function_arguments(p.function),
        );
        assert(new.index == p.index);
        calls_stay_in_order(before, new, index);
        lemma_amended_holds(before, new, index);
        assert(s == amended(before, new));
        if is_seen(t, index) {
            let i = choose|i: int| 0 <= i < t.len() && (#[trigger] t[i]).index == index;
            assert(parts[i].index == index);
        }
        if is_seen(parts, index) && index != p.index {
            let i = choose|i: int| 0 <= i < parts.len() && (#[trigger] parts[i]).index == index;
            assert(t[i].index == index);
        }
        if index == p.index {
            assert(parts[parts.len() - 1].index == index);
            let b = gathered(before, p.index);
            assert(b.name + Seq::<char>::empty() =~= b.name);
            assert(b.arguments + Seq::<char>::empty() =~= b.arguments);
            if b.id.len() == 0 {
                assert(b.id =~= Seq::<char>::empty());
            }
            assert(new =~= whole_call(parts, index));
        }
    } else {
        assert(entered(s, index) =~= seq![whole_call(parts, index)]);
    }
}

proof fn lemma_parts_follow(s: Seq<BuilderView>, a: Seq<StreamToolCall>, b: Seq<StreamToolCall>)
    ensures
        with_parts(with_parts(s, a), b) == with_parts(s, a + b),
    decreases b.len(),
{
    if b.len() == 0 {
        assert(a + b =~= a);
    } else {
        lemma_parts_follow(s, a, b.drop_last());
        assert((a + b).drop_last() =~= a + b.drop_last());
        assert((a + b).last() == b.last());
    }
}

proof fn lemma_flow_follow(a: Seq<Seq<char>>, b: Seq<Seq<char>>)
    ensures
        flow(a + b) == flow(a) + flow(b),
    decreases b.len(),
{
    if b.len() == 0 {
        assert(a + b =~= a);
        assert(flow(a) + flow(b) =~= flow(a));
    } else {
        lemma_flow_follow(a, b.drop_last());
        assert((a + b).drop_last() =~= a + b.drop_last());
        assert((a + b).last() == b.last());
        assert(flow(a + b) =~= flow(a) + flow(b));
    }
}

proof fn lemma_choices(a: AnswerView, choices: Seq<StreamChoice>)
    ensures
        with_choices(a, choices).content == a.content + flow(choice_texts(choices)),
        with_choices(a, choices).calls == with_parts(a.calls, choice_parts(choices)),
    decreases choices.len(),
{
    if choices.len() == 0 {
        assert(a.content + flow(choice_texts(choices)) =~= a.content);
    } else {
        let t = choices.drop_last();
        lemma_choices(a, t);
        let c = choices.last();
        lemma_parts_follow(a.calls, choice_parts(t), c.delta.tool_calls@);
        let before = choice_texts(t);
        match maybe(c.delta.content) {
            Some(text) => {
                if text.len() > 0 {
                    assert(before.push(text).drop_last() =~= before);
                } else {
                    assert(text =~= Seq::<char>::empty());
                }
            },
            None => {},
        }
        assert(with_choices(a, choices).content =~= a.content + flow(choice_texts(choices)));
    }
}

proof fn lemma_streamed(chunks: Seq<StreamChunk>)
    ensures
        streamed(chunks).content == flow(reported(chunks)),
        streamed(chunks).calls == with_parts(Seq::empty(), arrived(chunks)),
    decreases chunks.len(),
{
    if chunks.len() > 0 {
        let t = chunks.drop_last();
        let last = chunks.last();
        lemma_streamed(t);
        lemma_choices(
            AnswerView {
                usage: match last.usage {
                    Some(usage) => Some(usage_normalized(usage)),
                    None => streamed(t).usage,
                },
                ..streamed(t)
            },
            last.choices@,
        );
        lemma_parts_follow(Seq::empty(), arrived(t), choice_parts(last.choices@));
        lemma_flow_follow(reported(t), choice_texts(last.choices@));
    }
}

/// Calls are handed out exactly when each has its identifier and its name, and
/// then one for one.
proof fn lemma_calls_of(s: Seq<BuilderView>)
    ensures
        calls_of(s) is Err <==> exists|j: int|
            0 <= j < s.len() && ((#[trigger] s[j]).id.len() == 0 || s[j].name.len() == 0),
        calls_of(s) matches Ok(calls) ==> calls.len() == s.len() && forall|j: int|
            0 <= j < s.len() ==> #[trigger] calls[j] == call_of(s[j]),
    decreases s.len(),
{
    if s.len() > 0 {
        let t = s.drop_last();
        lemma_calls_of(t);
        if calls_of(t) is Err {
            let j = choose|j: int|
                0 <= j < t.len() && ((#[trigger] t[j]).id.len() == 0 || t[j].name.len() == 0);
            assert(s[j] == t[j]);
        } else {
            assert forall|j: int| 0 <= j < t.len() implies (#[trigger] s[j]).id.len() > 0
                && s[j].name.len() > 0 by {
                assert(t[j] == s[j]);
            }
            assert(s[s.len() - 1] == s.last());
            if calls_of(s) is Ok {
                let calls = calls_of(s)->Ok_0;
                assert forall|j: int| 0 <= j < s.len() implies #[trigger] calls[j] == call_of(
                    s[j],
                ) by {
                    if j < t.len() {
                        assert(t[j] == s[j]);
                    }
                }
            }
        }
    }
}

/// A stream amounts to what it brought: its text is all reported texts in one;
/// there is one call for each index that was seen, in the order of the indices,
/// with its first identifier and with the pieces of its name and its arguments in
/// the order in which they arrived. It fails exactly where a call lacks its
/// identifier or its name.
pub proof fn a_stream_amounts_to_what_it_brought(chunks: Seq<StreamChunk>)
    ensures
        ({
            let answer = streamed(chunks);
            let parts = arrived(chunks);
            &&& answer.content == flow(reported(chunks))
            &&& by_index(answer.calls)
            &&& forall|index: usize|
                #![trigger is_seen(parts, index)]
                is_seen(parts, index) <==> holds(answer.calls, index)
            &&& forall|j: int|
                0 <= j < answer.calls.len() ==> #[trigger] answer.calls[j] == whole_call(
                    parts,
                    answer.calls[j].index,
                )
            &&& calls_of(answer.calls) is Err <==> exists|index: usize| #[trigger]
                is_lacking(parts, index)
            &&& calls_of(answer.calls) matches Ok(calls) ==> calls.len() == answer.calls.len()
                && forall|j: int|
                0 <= j < calls.len() ==> #[trigger] calls[j] == call_of(answer.calls[j])
        }),
{
    let answer = streamed(chunks);
    let parts = arrived(chunks);
    lemma_streamed(chunks);
    lemma_gathered(parts, 0);
    lemma_calls_of(answer.calls);
    assert forall|index: usize|
        #![trigger is_seen(parts, index)]
        is_seen(parts, index) <==> holds(answer.calls, index) by {
        lemma_gathered(parts, index);
    }
    assert forall|j: int| 0 <= j < answer.calls.len() implies #[trigger] answer.calls[j]
        == whole_call(parts, answer.calls[j].index) by {
        lemma_gathered(parts, answer.calls[j].index);
        lemma_in_place(answer.calls, j);
    }
    if calls_of(answer.calls) is Err {
        let j = choose|j: int|
            0 <= j < answer.calls.len() && ((#[trigger] answer.calls[j]).id.len() == 0
                || answer.calls[j].name.len() == 0);
        let index = answer.calls[j].index;
        assert(answer.calls[j] == whole_call(parts, index));
        assert(holds(answer.calls, index));
        assert(is_seen(parts, index));
        assert(is_lacking(parts, index));
    }
    if exists|index: usize| #[trigger] is_lacking(parts, index) {
        let index = choose|index: usize| #[trigger] is_lacking(parts, index);
        assert(is_seen(parts, index));
        let j = choose|j: int|
            0 <= j < answer.calls.len() && (#[trigger] answer.calls[j]).index == index;
        assert(answer.calls[j] == whole_call(parts, index));
        assert(answer.calls[j].id.len() == 0 || answer.calls[j].name.len() == 0);
    }
}

/// The choices that a stream brings, in the order in which they arrive.
pub open spec fn all_choices(chunks: Seq<StreamChunk>) -> Seq<StreamChoice>
    decreases chunks.len(),
{
    if chunks.len() == 0 {
        Seq::empty()
    } else {
        all_choices(chunks.drop_last()) + chunks.last().choices@
    }
}

/// The texts of choices; one that brings none counts as empty.
pub open spec fn contents(choices: Seq<StreamChoice>) -> Seq<Seq<char>> {
    choices.map_values(
        |c: StreamChoice|
            match c.delta.content {
                Some(text) => text@,
                None => Seq::empty(),
            },
    )
}

/// The pieces of reasoning of choices; one that brings none counts as empty.
pub open spec fn reasonings(choices: Seq<StreamChoice>) -> Seq<Seq<char>> {
    choices.map_values(
        |c: StreamChoice|
            match c.delta.reasoning_content {
                Some(text) => text@,
                None => Seq::empty(),
            },
    )
}

/// The words of a stream are all that its choices brought, one behind the other: what
/// it says is their texts, which is also what was reported, and what it reasoned is
/// their reasoning. Nothing empty is reported. Its usage is that of the last event that
/// had one, with its parts as they came.
pub proof fn a_stream_says_what_its_choices_brought(chunks: Seq<StreamChunk>)
    ensures
        streamed(chunks).content == flow(contents(all_choices(chunks))),
        streamed(chunks).content == flow(reported(chunks)),
        streamed(chunks).reasoning == flow(reasonings(all_choices(chunks))),
        forall|i: int|
            0 <= i < reported(chunks).len() ==> (#[trigger] reported(chunks)[i]).len() > 0,
        chunks.len() > 0 ==> match chunks.last().usage {
            None => streamed(chunks).usage == streamed(chunks.drop_last()).usage,
            Some(u) => {
                &&& streamed(chunks).usage matches Some(kept)
                &&& kept.input_tokens == u.input_tokens
                &&& kept.output_tokens == u.output_tokens
                &&& kept.cache_read_tokens == u.cache_read_tokens
                &&& kept.cache_write_tokens == u.cache_write_tokens
                &&& u.total_tokens > 0 ==> kept.total_tokens == u.total_tokens
                &&& u.total_tokens == 0 && u.input_tokens + u.output_tokens <= u64::MAX
                    ==> kept.total_tokens == u.input_tokens + u.output_tokens
            },
        },
    decreases chunks.len(),
{
    lemma_streamed(chunks);
    if chunks.len() == 0 {
        assert(contents(all_choices(chunks)) =~= Seq::<Seq<char>>::empty());
        assert(reasonings(all_choices(chunks)) =~= Seq::<Seq<char>>::empty());
    } else {
        let t = chunks.drop_last();
        let last = chunks.last();
        a_stream_says_what_its_choices_brought(t);
        let start = AnswerView {
            usage: match last.usage {
                Some(usage) => Some(usage_normalized(usage)),
                None => streamed(t).usage,
            },
            ..streamed(t)
        };
        lemma_said(start, last.choices@);
        let a = all_choices(t);
        let b = last.choices@;
        assert(contents(a + b) =~= contents(a) + contents(b));
        assert(reasonings(a + b) =~= reasonings(a) + reasonings(b));
        lemma_flow_follow(contents(a), contents(b));
        lemma_flow_follow(reasonings(a), reasonings(b));
        lemma_no_empty_texts(b);
    }
}

proof fn lemma_said(a: AnswerView, choices: Seq<StreamChoice>)
    ensures
        with_choices(a, choices).content == a.content + flow(contents(choices)),
        with_choices(a, choices).reasoning == a.reasoning + flow(reasonings(choices)),
        with_choices(a, choices).usage == a.usage,
    decreases choices.len(),
{
    if choices.len() == 0 {
        assert(contents(choices) =~= Seq::<Seq<char>>::empty());
        assert(reasonings(choices) =~= Seq::<Seq<char>>::empty());
        assert(a.content + Seq::<char>::empty() =~= a.content);
        assert(a.reasoning + Seq::<char>::empty() =~= a.reasoning);
    } else {
        let t = choices.drop_last();
        lemma_said(a, t);
        assert(contents(choices).drop_last() =~= contents(t));
        assert(reasonings(choices).drop_last() =~= reasonings(t));
        assert(with_choices(a, choices).content =~= a.content + flow(contents(choices)));
        assert(with_choices(a, choices).reasoning =~= a.reasoning + flow(reasonings(choices)));
    }
}

proof fn lemma_no_empty_texts(choices: Seq<StreamChoice>)
    ensures
        forall|i: int|
            0 <= i < choice_texts(choices).len() ==> (#[trigger] choice_texts(choices)[i]).len() > 0,
    decreases choices.len(),
{
    if choices.len() > 0 {
        let before = choice_texts(choices.drop_last());
        lemma_no_empty_texts(choices.drop_last());
        assert forall|i: int| 0 <= i < choice_texts(choices).len() implies (
        #[trigger] choice_texts(choices)[i]).len() > 0 by {
            if i < before.len() {
                assert(choice_texts(choices)[i] == before[i]);
            }
        }
    }
}

} // verus!
