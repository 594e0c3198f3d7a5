//! Streams of a model's answer: how events are cut out of the bytes that come
//! in, and how an answer is put together from them.
use crate::error::{fail, Error};
use crate::llm::protocol::{
    call_views, usage_normalized, CallView, CalledFunction, ChatResponse, ChatStreamResponse,
    LlmEvent, ToolCall, Usage,
};
use crate::session::log::utf8_text;
use crate::text::{
    begins, chars_of, is_whitespace, join, joined, lemma_texts_push, line_list, lines_of_text,
    maybe, same, string_of, strip_prefix, texts, trimmed_start,
};
use vstd::prelude::*;
use vstd::utf8::{decode_utf8, valid_utf8};

verus! {

/// A tool call as far as it has come in.
#[derive(Debug)]
pub struct CallBuilder {
    pub index: usize,
    pub id: String,
    pub name: String,
    pub arguments: String,
}

/// The view of a call that is coming in.
#[verifier::ext_equal]
pub struct BuilderView {
    pub index: usize,
    pub id: Seq<char>,
    pub name: Seq<char>,
    pub arguments: Seq<char>,
}

impl View for CallBuilder {
    type V = BuilderView;

    open spec fn view(&self) -> BuilderView {
        BuilderView {
            index: self.index,
            id: self.id@,
            name: self.name@,
            arguments: self.arguments@,
        }
    }
}

/// The views of calls that are coming in.
pub open spec fn builder_views(v: Seq<CallBuilder>) -> Seq<BuilderView> {
    v.map_values(|b: CallBuilder| b@)
}

/// A call of which nothing has come in.
pub open spec fn blank_builder(index: usize) -> BuilderView {
    BuilderView { index, id: Seq::empty(), name: Seq::empty(), arguments: Seq::empty() }
}

/// How many calls at the front have a smaller index.
pub open spec fn place_of(s: Seq<BuilderView>, index: usize) -> int
    decreases s.len(),
{
    if s.len() == 0 || s[0].index >= index {
        0
    } else {
        1 + place_of(s.drop_first(), index)
    }
}

/// The calls with one of an index among them: a blank one where it was missing.
pub open spec fn entered(s: Seq<BuilderView>, index: usize) -> Seq<BuilderView> {
    let k = place_of(s, index);
    if k < s.len() && s[k].index == index {
        s
    } else {
        s.insert(k, blank_builder(index))
    }
}

/// The calls with the one of an index replaced.
pub open spec fn amended(s: Seq<BuilderView>, new: BuilderView) -> Seq<BuilderView> {
    entered(s, new.index).update(place_of(s, new.index), new)
}

/// What has come in of the call of an index.
pub open spec fn gathered(s: Seq<BuilderView>, index: usize) -> BuilderView {
    entered(s, index)[place_of(s, index)]
}

/// The calls stand in the order of their indices, and no index occurs twice.
pub open spec fn by_index(s: Seq<BuilderView>) -> bool {
    forall|i: int, j: int|
        #![trigger s[i], s[j]]
        0 <= i < j < s.len() ==> s[i].index < s[j].index
}

pub proof fn lemma_place(s: Seq<BuilderView>, index: usize, k: int)
    requires
        0 <= k <= s.len(),
        forall|j: int| 0 <= j < k ==> (#[trigger] s[j]).index < index,
        k < s.len() ==> s[k].index >= index,
    ensures
        place_of(s, index) == k,
    decreases k,
{
    if k > 0 {
        assert(s[0].index < index);
        assert forall|j: int| 0 <= j < k - 1 implies (#[trigger] s.drop_first()[j]).index < index by {
            assert(s.drop_first()[j] == s[j + 1]);
        }
        lemma_place(s.drop_first(), index, k - 1);
    }
}

pub proof fn lemma_place_bounds(s: Seq<BuilderView>, index: usize)
    ensures
        0 <= place_of(s, index) <= s.len(),
        forall|j: int| 0 <= j < place_of(s, index) ==> (#[trigger] s[j]).index < index,
        place_of(s, index) < s.len() ==> s[place_of(s, index)].index >= index,
    decreases s.len(),
{
    if s.len() > 0 && s[0].index < index {
        lemma_place_bounds(s.drop_first(), index);
        let k = place_of(s, index);
        assert forall|j: int| 0 <= j < k implies (#[trigger] s[j]).index < index by {
            if j > 0 {
                assert(s[j] == s.drop_first()[j - 1]);
            }
        }
    }
}

/// Whatever comes in, the calls stay in the order of their indices, and the
/// others stay as they are.
pub proof fn calls_stay_in_order(s: Seq<BuilderView>, new: BuilderView, other: usize)
    requires
        by_index(s),
    ensures
        by_index(amended(s, new)),
        gathered(amended(s, new), new.index) == new,
        other != new.index ==> gathered(amended(s, new), other) == gathered(s, other),
{
    let k = place_of(s, new.index);
    let e = entered(s, new.index);
    let a = amended(s, new);
    lemma_place_bounds(s, new.index);
    assert forall|i: int, j: int| 0 <= i < j < a.len() implies (#[trigger] a[i]).index < (#[trigger] a[j]).index by {
        if k < s.len() && s[k].index == new.index {
            assert(s[i].index < s[j].index);
            if i == k {
                assert(a[i] == new);
            }
        } else {
            if i < k {
                assert(e[i] == s[i]);
                if j > k {
                    assert(e[j] == s[j - 1]);
                    if i < j - 1 {
                        assert(s[i].index < s[j - 1].index);
                    }
                } else if j < k {
                    assert(e[j] == s[j]);
                    assert(s[i].index < s[j].index);
                }
            } else if i == k {
                assert(e[j] == s[j - 1]);
                if k < j - 1 {
                    assert(s[k].index < s[j - 1].index);
                }
            } else {
                assert(e[i] == s[i - 1] && e[j] == s[j - 1]);
                assert(s[i - 1].index < s[j - 1].index);
            }
        }
    }
    lemma_place(a, new.index, k);
    if other != new.index {
        let p = place_of(s, other);
        lemma_place_bounds(s, other);
        if k < s.len() && s[k].index == new.index {
            assert(a =~= s.update(k, new));
            assert forall|j: int| 0 <= j < p implies (#[trigger] a[j]).index < other by {
                assert(s[j].index < other);
            }
            lemma_place(a, other, p);
        } else {
            assert(a =~= s.insert(k, new));
            if other < new.index {
                assert(p <= k) by {
                    if p > k {
                        if k < s.len() {
                            assert(s[k].index < other);
                        }
                    }
                }
                assert forall|j: int| 0 <= j < p implies (#[trigger] a[j]).index < other by {
                    assert(a[j] == s[j]);
                }
                lemma_place(a, other, p);
                if p < k {
                    assert(a[p] == s[p]);
                }
            } else {
                assert(p >= k) by {
                    if p < k {
                        assert(s[p].index < new.index);
                    }
                }
                assert forall|j: int| 0 <= j < p + 1 implies (#[trigger] a[j]).index < other by {
                    if j < k {
                        assert(a[j] == s[j]);
                    } else if j > k {
                        assert(a[j] == s[j - 1]);
                    }
                }
                if p < s.len() {
                    assert(a[p + 1] == s[p]);
                }
                lemma_place(a, other, p + 1);
            }
        }
    }
}

/// The calls that are coming in.
#[derive(Debug)]
pub struct CallBuilders {
    items: Vec<CallBuilder>,
}

impl View for CallBuilders {
    type V = Seq<BuilderView>;

    closed spec fn view(&self) -> Seq<BuilderView> {
        builder_views(self.items@)
    }
}

impl CallBuilders {
    /// No calls.
    pub fn new() -> (r: Self)
        ensures
            r@ == Seq::<BuilderView>::empty(),
    {
        let out = CallBuilders { items: Vec::new() };
        assert(out@ =~= Seq::<BuilderView>::empty());
        out
    }

    /// Makes room for the call of an index, and tells where it stands.
    fn enter(&mut self, index: usize) -> (r: usize)
        ensures
            final(self)@ == entered(old(self)@, index),
            r == place_of(old(self)@, index),
            r < final(self)@.len(),
            final(self)@[r as int].index == index,
    {
        let mut at: usize = 0;
        let ghost all = self@;
        while at < self.items.len() && self.items[at].index < index
            invariant
                at <= self.items.len(),
                all == builder_views(self.items@),
                forall|j: int| 0 <= j < at ==> (#[trigger] all[j]).index < index,
            decreases self.items.len() - at,
        {
            at += 1;
        }
        proof {
            lemma_place(all, index, at as int);
        }
        if at < self.items.len() && self.items[at].index == index {
            return at;
        }
        let blank = CallBuilder {
            index,
            id: String::new(),
            name: String::new(),
            arguments: String::new(),
        };
        assert(blank@ =~= blank_builder(index));
        let ghost view = blank@;
        self.items.insert(at, blank);
        assert(self@ =~= all.insert(at as int, view));
        at
    }

    /// Takes in a part of a call: an identifier counts where there is none yet,
    /// the name and the arguments are continued.
    pub fn extend(
        &mut self,
        index: usize,
        id: Option<String>,
        name: Option<String>,
        arguments: Option<String>,
    )
        ensures
            final(self)@ == with_part(old(self)@, index, maybe(id), maybe(name), maybe(arguments)),
    {
        let at: usize = self.enter(index);
        let ghost all = self@;
        let ghost was = all[at as int];
        let mut builder = self.items.remove(at);
        assert(builder@ == was);
        match id {
            Some(text) => {
                if builder.id.as_str().is_empty() {
                    assert(was.id =~= Seq::empty());
                    builder.id = text;
                }
            },
            None => {},
        }
        match name {
            Some(text) => {
                builder.name.append(text.as_str());
            },
            None => {},
        }
        match arguments {
            Some(text) => {
                builder.arguments.append(text.as_str());
            },
            None => {},
        }
        let ghost now = builder@;
        assert(now =~= part_taken(was, maybe(id), maybe(name), maybe(arguments)));
        self.items.insert(at, builder);
        assert(self@ =~= all.update(at as int, now));
    }

    /// Sets the identifier and the name of a call.
    pub fn begin(&mut self, index: usize, id: String, name: String)
        ensures
            final(self)@ == amended(
                old(self)@,
                BuilderView { id: id@, name: name@, ..gathered(old(self)@, index) },
            ),
    {
        let at: usize = self.enter(index);
        let ghost all = self@;
        let ghost was = all[at as int];
        let mut builder = self.items.remove(at);
        assert(builder@ == was);
        builder.id = id;
        builder.name = name;
        let ghost now = builder@;
        assert(now =~= BuilderView { id: id@, name: name@, ..was });
        self.items.insert(at, builder);
        assert(self@ =~= all.update(at as int, now));
    }

    /// The calls.
    pub fn items(&self) -> (r: &Vec<CallBuilder>)
        ensures
            builder_views(r@) == self@,
    {
        &self.items
    }
}

/// A call after a part of it has come in.
pub open spec fn part_taken(
    b: BuilderView,
    id: Option<Seq<char>>,
    name: Option<Seq<char>>,
    arguments: Option<Seq<char>>,
) -> BuilderView {
    BuilderView {
        index: b.index,
        id: match id {
            Some(text) => if b.id.len() == 0 {
                text
            } else {
                b.id
            },
            None => b.id,
        },
        name: match name {
            Some(text) => b.name + text,
            None => b.name,
        },
        arguments: match arguments {
            Some(text) => b.arguments + text,
            None => b.arguments,
        },
    }
}

/// The calls after a part of one has come in.
pub open spec fn with_part(
    s: Seq<BuilderView>,
    index: usize,
    id: Option<Seq<char>>,
    name: Option<Seq<char>>,
    arguments: Option<Seq<char>>,
) -> Seq<BuilderView> {
    amended(s, part_taken(gathered(s, index), id, name, arguments))
}

/// A part of a function call in a stream.
#[derive(Debug)]
pub struct StreamFunction {
    pub name: Option<String>,
    pub arguments: Option<String>,
}

/// A part of a tool call in a stream.
#[derive(Debug)]
pub struct StreamToolCall {
    pub index: usize,
    pub id: Option<String>,
    pub function: Option<StreamFunction>,
}

/// What one choice of a stream's event brings.
#[derive(Debug)]
pub struct StreamDelta {
    pub content: Option<String>,
    pub reasoning_content: Option<String>,
    pub tool_calls: Vec<StreamToolCall>,
}

/// One choice of a stream's event.
#[derive(Debug)]
pub struct StreamChoice {
    pub delta: StreamDelta,
}

/// One event of a stream.
#[derive(Debug)]
pub struct StreamChunk {
    pub choices: Vec<StreamChoice>,
    pub usage: Option<Usage>,
}

/// An answer as far as it has come in.
#[derive(Debug)]
pub struct StreamAccumulator {
    content: String,
    reasoning_content: String,
    tool_calls: CallBuilders,
    usage: Option<Usage>,
}

/// The view of an answer that is coming in.
#[verifier::ext_equal]
pub struct AnswerView {
    pub content: Seq<char>,
    pub reasoning: Seq<char>,
    pub calls: Seq<BuilderView>,
    pub usage: Option<Usage>,
}

impl View for StreamAccumulator {
    type V = AnswerView;

    closed spec fn view(&self) -> AnswerView {
        AnswerView {
            content: self.content@,
            reasoning: self.reasoning_content@,
            calls: self.tool_calls@,
            usage: self.usage,
        }
    }
}

/// The function part of a call's part.
pub open spec fn function_name(f: Option<StreamFunction>) -> Option<Seq<char>> {
    match f {
        Some(f) => maybe(f.name),
        None => None,
    }
}

/// The arguments part of a call's part.
pub open spec fn function_arguments(f: Option<StreamFunction>) -> Option<Seq<char>> {
    match f {
        Some(f) => maybe(f.arguments),
        None => None,
    }
}

/// The calls after some parts have come in.
pub open spec fn with_parts(s: Seq<BuilderView>, parts: Seq<StreamToolCall>) -> Seq<BuilderView>
    decreases parts.len(),
{
    if parts.len() == 0 {
        s
    } else {
        let p = parts.last();
        with_part(
            with_parts(s, parts.drop_last()),
            p.index,
            maybe(p.id),
            function_name(p.function),
            function_arguments(p.function),
        )
    }
}

/// The text that comes with a choice.
pub open spec fn text_or_empty(text: Option<Seq<char>>) -> Seq<char> {
    match text {
        Some(t) => t,
        None => Seq::empty(),
    }
}

/// An answer after a choice has come in.
pub open spec fn with_choice(a: AnswerView, c: StreamChoice) -> AnswerView {
    AnswerView {
        content: a.content + text_or_empty(maybe(c.delta.content)),
        reasoning: a.reasoning + text_or_empty(maybe(c.delta.reasoning_content)),
        calls: with_parts(a.calls, c.delta.tool_calls@),
        usage: a.usage,
    }
}

/// An answer after some choices have come in.
pub open spec fn with_choices(a: AnswerView, choices: Seq<StreamChoice>) -> AnswerView
    decreases choices.len(),
{
    if choices.len() == 0 {
        a
    } else {
        with_choice(with_choices(a, choices.drop_last()), choices.last())
    }
}

/// An answer after an event has come in: a usage replaces the one before.
pub open spec fn with_chunk(a: AnswerView, chunk: StreamChunk) -> AnswerView {
    with_choices(
        AnswerView {
            usage: match chunk.usage {
                Some(usage) => Some(usage_normalized(usage)),
                None => a.usage,
            },
            ..a
        },
        chunk.choices@,
    )
}

/// The texts that some choices bring: those that are not empty.
pub open spec fn choice_texts(choices: Seq<StreamChoice>) -> Seq<Seq<char>>
    decreases choices.len(),
{
    if choices.len() == 0 {
        Seq::empty()
    } else {
        let before = choice_texts(choices.drop_last());
        match maybe(choices.last().delta.content) {
            Some(text) => if text.len() > 0 {
                before.push(text)
            } else {
                before
            },
            None => before,
        }
    }
}

/// The texts of reports.
pub open spec fn event_texts(v: Seq<LlmEvent>) -> Seq<Seq<char>> {
    v.map_values(|e: LlmEvent| match e { LlmEvent::TextDelta(text) => text@ })
}

/// Reports a text.
pub fn report_text(out: &mut Vec<LlmEvent>, text: String)
    ensures
        event_texts(final(out)@) == event_texts(old(out)@).push(text@),
{
    let ghost view = text@;
    out.push(LlmEvent::TextDelta(text));
    assert(event_texts(out@) =~= event_texts(old(out)@).push(view));
}

/// A call that has come in as a whole.
pub open spec fn call_of(b: BuilderView) -> CallView {
    CallView { id: b.id, call_type: "function"@, name: b.name, arguments: b.arguments }
}

/// The calls once the stream has ended, or what the first one that is not whole
/// lacks.
pub open spec fn calls_of(s: Seq<BuilderView>) -> Result<Seq<CallView>, Seq<char>>
    decreases s.len(),
{
    if s.len() == 0 {
        Ok(Seq::empty())
    } else {
        match calls_of(s.drop_last()) {
            Err(m) => Err(m),
            Ok(calls) => if s.last().id.len() == 0 {
                Err("streamed tool call is missing id"@)
            } else if s.last().name.len() == 0 {
                Err("streamed tool call is missing function name"@)
            } else {
                Ok(calls.push(call_of(s.last())))
            },
        }
    }
}

proof fn lemma_calls_fail(s: Seq<BuilderView>, k: int)
    requires
        0 <= k <= s.len(),
        calls_of(s.take(k)) is Err,
    ensures
        calls_of(s) == calls_of(s.take(k)),
    decreases s.len() - k,
{
    if k < s.len() {
        assert(s.take(k + 1).drop_last() =~= s.take(k));
        lemma_calls_fail(s, k + 1);
    } else {
        assert(s.take(k) =~= s);
    }
}

/// A text that is not empty.
pub open spec fn unless_empty(text: Seq<char>) -> Option<Seq<char>> {
    if text.len() == 0 {
        None
    } else {
        Some(text)
    }
}

/// A text, unless it is empty.
pub fn keep_unless_empty(text: String) -> (r: Option<String>)
    ensures
        maybe(r) == unless_empty(text@),
{
    if text.as_str().is_empty() {
        assert(text@ =~= Seq::empty());
        None
    } else {
        Some(text)
    }
}

impl Default for StreamAccumulator {
    fn default() -> (r: Self)
        ensures
            r@ == (AnswerView {
                content: Seq::empty(),
                reasoning: Seq::empty(),
                calls: Seq::empty(),
                usage: None,
            }),
    {
        StreamAccumulator {
            content: String::new(),
            reasoning_content: String::new(),
            tool_calls: CallBuilders::new(),
            usage: None,
        }
    }
}

impl StreamAccumulator {
    /// Takes in the parts of calls.
    fn take_parts(&mut self, parts: Vec<StreamToolCall>)
        ensures
            final(self)@ == (AnswerView { calls: with_parts(old(self)@.calls, parts@), ..old(self)@ }),
    {
        assert(parts@.take(0) =~= Seq::empty());
        for part in it: parts
            invariant
                it.seq() == parts@,
                self@ == (AnswerView {
                    calls: with_parts(old(self)@.calls, parts@.take(it.index() as int)),
                    ..old(self)@
                }),
        {
            let ghost done = parts@.take(it.index() as int);
            let ghost next = parts@.take(it.index() + 1);
            assert(next.drop_last() =~= done);
            assert(next.last() == part);
            let ghost given = part;
            let (name, arguments) = match part.function {
                Some(function) => (function.name, function.arguments),
                None => (None, None),
            };
            assert(maybe(name) == function_name(given.function));
            assert(maybe(arguments) == function_arguments(given.function));
            self.tool_calls.extend(part.index, part.id, name, arguments);
            assert(self@ =~= AnswerView {
                calls: with_parts(old(self)@.calls, next),
                ..old(self)@
            });
        }
        assert(parts@.take(parts@.len() as int) =~= parts@);
    }

    /// Takes in an event, and reports the texts that it brings.
    pub fn apply(&mut self, chunk: StreamChunk, out: &mut Vec<LlmEvent>)
        ensures
            final(self)@ == with_chunk(old(self)@, chunk),
            event_texts(final(out)@) == event_texts(old(out)@) + choice_texts(chunk.choices@),
    {
        match chunk.usage {
            Some(usage) => {
                self.usage = Some(usage.normalized());
            },
            None => {},
        }
        let ghost start = self@;
        let ghost said = event_texts(out@);
        let choices = chunk.choices;
        assert(choices@.take(0) =~= Seq::empty());
        assert(said + choice_texts(choices@.take(0)) =~= said);
        for choice in it: choices
            invariant
                it.seq() == choices@,
                self@ == with_choices(start, choices@.take(it.index() as int)),
                event_texts(out@) == said + choice_texts(choices@.take(it.index() as int)),
        {
            let ghost done = choices@.take(it.index() as int);
            let ghost next = choices@.take(it.index() + 1);
            assert(next.drop_last() =~= done);
            assert(next.last() == choice);
            let ghost given = choice;
            let ghost before = self@;
            let ghost heard = event_texts(out@);
            match choice.delta.content {
                Some(text) => {
                    if !text.as_str().is_empty() {
                        self.content.append(text.as_str());
                        report_text(out, text);
                    } else {
                        assert(text@ =~= Seq::empty());
                        assert(before.content + text@ =~= before.content);
                    }
                },
                None => {
                    assert(before.content + Seq::empty() =~= before.content);
                },
            }
            match choice.delta.reasoning_content {
                Some(text) => {
                    self.reasoning_content.append(text.as_str());
                },
                None => {
                    assert(before.reasoning + Seq::empty() =~= before.reasoning);
                },
            }
            self.take_parts(choice.delta.tool_calls);
            assert(self@ =~= with_choice(before, given));
            assert(event_texts(out@) =~= said + choice_texts(next));
        }
        assert(choices@.take(choices@.len() as int) =~= choices@);
    }

    /// The answer, once the stream has ended.
    pub fn finish(self) -> (r: Result<ChatStreamResponse, Error>)
        ensures
            match calls_of(self@.calls) {
                Err(m) => r matches Err(e) && e@ == m,
                Ok(calls) => r matches Ok(a) && a.content@ == self@.content && maybe(
                    a.reasoning_content,
                ) == unless_empty(self@.reasoning) && call_views(a.tool_calls@) == calls && a.usage
                    == self@.usage,
            },
    {
        let items = self.tool_calls.items();
        let ghost all = builder_views(items@);
        let mut tool_calls: Vec<ToolCall> = Vec::new();
        let mut i: usize = 0;
        assert(call_views(tool_calls@) =~= Seq::empty());
        while i < items.len()
            invariant
                i <= items.len(),
                all == builder_views(items@),
                all == self@.calls,
                calls_of(all.take(i as int)) == Ok::<Seq<CallView>, Seq<char>>(
                    call_views(tool_calls@),
                ),
            decreases items.len() - i,
        {
            let item = &items[i];
            proof {
                assert(all.take(i + 1).drop_last() =~= all.take(i as int));
                assert(all.take(i + 1).last() == item@);
                if calls_of(all.take(i + 1)) is Err {
                    lemma_calls_fail(all, i + 1);
                }
            }
            if item.id.as_str().is_empty() {
                return Err(fail("streamed tool call is missing id"));
            }
            if item.name.as_str().is_empty() {
                return Err(fail("streamed tool call is missing function name"));
            }
            let call = ToolCall {
                id: item.id.clone(),
                call_type: "function".to_owned(),
                function: CalledFunction {
                    name: item.name.clone(),
                    arguments: item.arguments.clone(),
                },
            };
            assert(call@ =~= call_of(item@));
            assert(call_views(tool_calls@.push(call)) =~= call_views(tool_calls@).push(call@));
            tool_calls.push(call);
            i += 1;
        }
        assert(all.take(i as int) =~= all);
        Ok(
            ChatStreamResponse {
                content: self.content,
                reasoning_content: keep_unless_empty(self.reasoning_content),
                tool_calls,
                usage: self.usage,
            },
        )
    }
}

/// The outcome of taking the first choice of a whole response.
pub open spec fn first_choice(
    response: ChatResponse,
    missing: Seq<char>,
    a: Option<ChatStreamResponse>,
    error: Option<Seq<char>>,
    said: Seq<Seq<char>>,
) -> bool {
    if response.choices@.len() == 0 {
        error == Some(missing) && said.len() == 0
    } else {
        let m = response.choices@[0].message;
        let content = text_or_empty(maybe(m.content));
        &&& error is None
        &&& a matches Some(a) && a.content@ == content && maybe(a.reasoning_content) == maybe(
            m.reasoning_content,
        ) && call_views(a.tool_calls@) == call_views(m.tool_calls@) && a.usage == response.usage
        &&& said == (if content.len() == 0 {
            Seq::empty()
        } else {
            seq![content]
        })
    }
}

/// The answer of an outcome.
pub open spec fn answer_of(r: Result<ChatStreamResponse, Error>) -> Option<ChatStreamResponse> {
    match r {
        Ok(a) => Some(a),
        Err(_) => None,
    }
}

/// The message of an outcome.
pub open spec fn fault_of(r: Result<ChatStreamResponse, Error>) -> Option<Seq<char>> {
    match r {
        Ok(_) => None,
        Err(e) => Some(e@),
    }
}

/// The answer in a whole response: its first choice, whose text is reported at
/// once. `missing` is the message where there is none.
pub fn response_from_complete(response: ChatResponse, missing: &str, out: &mut Vec<LlmEvent>) -> (r:
    Result<ChatStreamResponse, Error>)
    ensures
        final(out)@.len() >= old(out)@.len(),
        event_texts(final(out)@).take(old(out)@.len() as int) == event_texts(old(out)@),
        first_choice(
            response,
            missing@,
            answer_of(r),
            fault_of(r),
            event_texts(final(out)@).skip(old(out)@.len() as int),
        ),
{
    let ghost before = event_texts(out@);
    let mut choices = response.choices;
    assert(before.take(out@.len() as int) =~= before);
    assert(before.skip(out@.len() as int) =~= Seq::empty());
    if choices.len() == 0 {
        return Err(fail(missing));
    }
    let choice = choices.remove(0);
    let message = choice.message;
    let content = match message.content {
        Some(text) => text,
        None => String::new(),
    };
    assert(content@ =~= text_or_empty(maybe(message.content)));
    if !content.as_str().is_empty() {
        report_text(out, content.clone());
        assert(before.push(content@).take(before.len() as int) =~= before);
        assert(before.push(content@).skip(before.len() as int) =~= seq![content@]);
    } else {
        assert(content@ =~= Seq::empty());
    }
    Ok(
        ChatStreamResponse {
            content,
            reasoning_content: message.reasoning_content,
            tool_calls: message.tool_calls,
            usage: response.usage,
        },
    )
}

/// Bytes stand in a buffer at a position.
pub open spec fn bytes_at(buffer: Seq<u8>, mark: Seq<u8>, at: int) -> bool {
    0 <= at && at + mark.len() <= buffer.len() && buffer.subrange(at, at + mark.len()) == mark
}

/// The first place of some bytes in a buffer, at or behind a position.
pub open spec fn first_bytes(buffer: Seq<u8>, mark: Seq<u8>, from: int) -> Option<int>
    decreases buffer.len() + 1 - from,
{
    if from < 0 || from + mark.len() > buffer.len() {
        None
    } else if bytes_at(buffer, mark, from) {
        Some(from)
    } else {
        first_bytes(buffer, mark, from + 1)
    }
}

/// An empty line, with carriage returns.
pub open spec fn crlf_mark() -> Seq<u8> {
    seq![13u8, 10u8, 13u8, 10u8]
}

/// An empty line, without carriage returns.
pub open spec fn lf_mark() -> Seq<u8> {
    seq![10u8, 10u8]
}

/// Where the first event in a buffer ends, and how long the empty line behind
/// it is.
pub open spec fn boundary(buffer: Seq<u8>) -> Option<(int, int)> {
    match (first_bytes(buffer, crlf_mark(), 0), first_bytes(buffer, lf_mark(), 0)) {
        (Some(a), Some(b)) => if a <= b {
            Some((a, 4))
        } else {
            Some((b, 2))
        },
        (Some(a), None) => Some((a, 4)),
        (None, Some(b)) => Some((b, 2)),
        (None, None) => None,
    }
}

proof fn lemma_first_bytes(buffer: Seq<u8>, mark: Seq<u8>, from: int)
    requires
        0 <= from,
    ensures
        match first_bytes(buffer, mark, from) {
            Some(at) => from <= at && bytes_at(buffer, mark, at) && forall|j: int|
                from <= j < at ==> !bytes_at(buffer, mark, j),
            None => forall|j: int| from <= j ==> !bytes_at(buffer, mark, j),
        },
    decreases buffer.len() + 1 - from,
{
    if from + mark.len() <= buffer.len() && !bytes_at(buffer, mark, from) {
        lemma_first_bytes(buffer, mark, from + 1);
    }
}

fn find_bytes(buffer: &Vec<u8>, mark: &Vec<u8>) -> (r: Option<usize>)
    ensures
        match r {
            Some(at) => first_bytes(buffer@, mark@, 0) == Some(at as int) && bytes_at(
                buffer@,
                mark@,
                at as int,
            ),
            None => first_bytes(buffer@, mark@, 0) is None,
        },
{
    let mut i: usize = 0;
    while i <= buffer.len() && mark.len() <= buffer.len() - i
        invariant
            i <= buffer.len() + 1,
            first_bytes(buffer@, mark@, 0) == first_bytes(buffer@, mark@, i as int),
        decreases buffer.len() + 1 - i,
    {
        let mut k: usize = 0;
        while k < mark.len() && buffer[i + k] == mark[k]
            invariant
                k <= mark.len(),
                i + mark.len() <= buffer.len(),
                forall|j: int| 0 <= j < k ==> buffer@[i + j] == mark@[j],
            decreases mark.len() - k,
        {
            k += 1;
        }
        if k == mark.len() {
            assert(buffer@.subrange(i as int, i + mark@.len()) =~= mark@);
            return Some(i);
        }
        proof {
            if bytes_at(buffer@, mark@, i as int) {
                assert(buffer@.subrange(i as int, i + mark@.len())[k as int] == mark@[k as int]);
            }
        }
        if i == buffer.len() {
            return None;
        }
        i += 1;
    }
    None
}

/// Where the first event in a buffer ends, and how long the empty line behind
/// it is.
pub fn find_event_boundary(buffer: &Vec<u8>) -> (r: Option<(usize, usize)>)
    ensures
        match r {
            Some((end, len)) => boundary(buffer@) == Some((end as int, len as int)) && end + len
                <= buffer@.len(),
            None => boundary(buffer@) is None,
        },
{
    let crlf: Vec<u8> = vec![13u8, 10u8, 13u8, 10u8];
    let lf: Vec<u8> = vec![10u8, 10u8];
    assert(crlf@ =~= crlf_mark());
    assert(lf@ =~= lf_mark());
    match (find_bytes(buffer, &crlf), find_bytes(buffer, &lf)) {
        (Some(a), Some(b)) => if a <= b {
            Some((a, 4))
        } else {
            Some((b, 2))
        },
        (Some(a), None) => Some((a, 4)),
        (None, Some(b)) => Some((b, 2)),
        (None, None) => None,
    }
}

/// The event that stands first in a buffer stays the same, whatever comes in
/// behind.
pub proof fn a_whole_event_stays(a: Seq<u8>, b: Seq<u8>)
    requires
        boundary(a) is Some,
    ensures
        boundary(a + b) == boundary(a),
{
    let c = a + b;
    lemma_first_bytes(a, crlf_mark(), 0);
    lemma_first_bytes(a, lf_mark(), 0);
    lemma_first_bytes(c, crlf_mark(), 0);
    lemma_first_bytes(c, lf_mark(), 0);
    assert forall|j: int| bytes_at(a, crlf_mark(), j) implies bytes_at(c, crlf_mark(), j) by {
        assert(c.subrange(j, j + 4) =~= a.subrange(j, j + 4));
    }
    assert forall|j: int| bytes_at(a, lf_mark(), j) implies bytes_at(c, lf_mark(), j) by {
        assert(c.subrange(j, j + 2) =~= a.subrange(j, j + 2));
    }
    assert forall|j: int| bytes_at(c, crlf_mark(), j) && j + 4 <= a.len() implies bytes_at(
        a,
        crlf_mark(),
        j,
    ) by {
        assert(c.subrange(j, j + 4) =~= a.subrange(j, j + 4));
    }
    assert forall|j: int| bytes_at(c, lf_mark(), j) && j + 2 <= a.len() implies bytes_at(
        a,
        lf_mark(),
        j,
    ) by {
        assert(c.subrange(j, j + 2) =~= a.subrange(j, j + 2));
    }
    let (end, len) = boundary(a)->0;
    if len == 2 {
        assert(bytes_at(a, lf_mark(), end));
        assert(a.subrange(end, end + 2)[0] == 10 && a.subrange(end, end + 2)[1] == 10);
        match first_bytes(c, crlf_mark(), 0) {
            Some(q) => {
                if q <= end {
                    let w = c.subrange(q, q + 4);
                    assert(w[0] == 13 && w[1] == 10 && w[2] == 13 && w[3] == 10);
                    if q + 4 > a.len() {
                        assert(q >= a.len() - 3);
                        assert(end <= a.len() - 2);
                        if q == end {
                            assert(c[q] == a[end]);
                        } else {
                            assert(q == end - 1);
                            assert(c[q + 2] == a[end + 1]);
                        }
                    }
                }
            },
            None => {},
        }
    }
}

/// The text behind the marks of a list of lines: those that begin with it, each
/// without the space behind the mark.
pub open spec fn data_lines(lines: Seq<Seq<char>>) -> Seq<Seq<char>>
    decreases lines.len(),
{
    if lines.len() == 0 {
        Seq::empty()
    } else {
        let before = data_lines(lines.drop_last());
        if begins(lines.last(), "data:"@) {
            before.push(trimmed_start(lines.last().skip("data:"@.len() as int)))
        } else {
            before
        }
    }
}

/// What an event says: its data lines; nothing where it has none, and an error
/// where it is no UTF-8.
pub open spec fn data_of(event: Seq<u8>) -> Result<Option<Seq<char>>, Seq<char>> {
    if !valid_utf8(event) {
        Err("decode SSE event as UTF-8"@)
    } else {
        let data = data_lines(line_list(decode_utf8(event)));
        if data.len() == 0 {
            Ok(None)
        } else {
            Ok(Some(joined(data, "\n"@)))
        }
    }
}

/// `text` without the space at its beginning.
fn trim_front(text: &str) -> (r: String)
    ensures
        r@ == trimmed_start(text@),
{
    let chars = chars_of(text);
    let mut from: usize = 0;
    assert(chars@.skip(0) =~= text@);
    while from < chars.len() && is_whitespace(chars[from])
        invariant
            from <= chars.len(),
            trimmed_start(chars@.skip(from as int)) == trimmed_start(text@),
        decreases chars.len() - from,
    {
        assert(chars@.skip(from as int).drop_first() =~= chars@.skip(from + 1));
        from += 1;
    }
    assert(chars@.subrange(from as int, chars@.len() as int) =~= chars@.skip(from as int));
    string_of(&chars, from, chars.len())
}

/// What an event says.
pub fn decode_sse_data(event: &[u8]) -> (r: Result<Option<String>, Error>)
    ensures
        match data_of(event@) {
            Err(m) => r matches Err(e) && e@ == m,
            Ok(data) => r matches Ok(d) && maybe(d) == data,
        },
{
    let text = match utf8_text(event) {
        Some(text) => text,
        None => {
            return Err(fail("decode SSE event as UTF-8"));
        },
    };
    let lines = lines_of_text(text.as_str());
    let ghost all = line_list(text@);
    let mut data: Vec<String> = Vec::new();
    let mut i: usize = 0;
    assert(texts(data@) =~= data_lines(all.take(0)));
    while i < lines.len()
        invariant
            i <= lines.len(),
            all == texts(lines@),
            texts(data@) == data_lines(all.take(i as int)),
        decreases lines.len() - i,
    {
        proof {
            assert(all.take(i + 1).drop_last() =~= all.take(i as int));
            assert(all.take(i + 1).last() == lines@[i as int]@);
        }
        match strip_prefix(lines[i].as_str(), "data:") {
            Some(rest) => {
                let line = trim_front(rest.as_str());
                proof {
                    lemma_texts_push(data@, line);
                }
                data.push(line);
            },
            None => {},
        }
        i += 1;
    }
    assert(all.take(i as int) =~= all);
    if data.len() == 0 {
        assert(texts(data@).len() == 0);
        Ok(None)
    } else {
        Ok(Some(join(&data, "\n")))
    }
}

/// What comes next out of a stream.
#[derive(Debug)]
pub enum SseStep {
    /// Nothing until more bytes have come in.
    Wait,
    /// An event with data.
    Data(String),
    /// The end that the service announced.
    Done,
}

/// The view of what comes next.
pub enum StepView {
    Wait,
    Data(Seq<char>),
    Done,
}

impl View for SseStep {
    type V = StepView;

    open spec fn view(&self) -> StepView {
        match *self {
            SseStep::Wait => StepView::Wait,
            SseStep::Data(text) => StepView::Data(text@),
            SseStep::Done => StepView::Done,
        }
    }
}

/// What comes next out of a buffer, and what is then left of it. Events without
/// data are passed over.
pub open spec fn next_step(buffer: Seq<u8>) -> (Result<StepView, Seq<char>>, Seq<u8>)
    decreases buffer.len(),
    via next_step_ends
{
    match boundary(buffer) {
        None => (Ok(StepView::Wait), buffer),
        Some((end, len)) => {
            let rest = buffer.skip(end + len);
            match data_of(buffer.take(end)) {
                Err(m) => (Err(m), rest),
                Ok(None) => next_step(rest),
                Ok(Some(data)) => if data == "[DONE]"@ {
                    (Ok(StepView::Done), rest)
                } else {
                    (Ok(StepView::Data(data)), rest)
                },
            }
        },
    }
}

#[via_fn]
proof fn next_step_ends(buffer: Seq<u8>) {
    lemma_first_bytes(buffer, crlf_mark(), 0);
    lemma_first_bytes(buffer, lf_mark(), 0);
}

/// The bytes of a stream that have come in and are not used up.
#[derive(Debug)]
pub struct SseReader {
    buffer: Vec<u8>,
}

impl View for SseReader {
    type V = Seq<u8>;

    closed spec fn view(&self) -> Seq<u8> {
        self.buffer@
    }
}

impl SseReader {
    /// No bytes.
    pub fn new() -> (r: Self)
        ensures
            r@ == Seq::<u8>::empty(),
    {
        SseReader { buffer: Vec::new() }
    }

    /// Takes in more bytes.
    pub fn feed(&mut self, chunk: &[u8])
        ensures
            final(self)@ == old(self)@ + chunk@,
    {
        let mut i: usize = 0;
        assert(self@ + chunk@.take(0) =~= self@);
        while i < chunk.len()
            invariant
                i <= chunk.len(),
                self@ == old(self)@ + chunk@.take(i as int),
            decreases chunk.len() - i,
        {
            self.buffer.push(chunk[i]);
            i += 1;
            assert(self@ =~= old(self)@ + chunk@.take(i as int));
        }
        assert(chunk@.take(i as int) =~= chunk@);
    }

    /// Takes out what comes next.
    pub fn next(&mut self) -> (r: Result<SseStep, Error>)
        ensures
            final(self)@ == next_step(old(self)@).1,
            match next_step(old(self)@).0 {
                Err(m) => r matches Err(e) && e@ == m,
                Ok(step) => r matches Ok(s) && s@ == step,
            },
    {
        let ghost start = self@;
        loop
            invariant
                start == old(self)@,
                next_step(self@) == next_step(start),
            decreases self@.len(),
        {
            let (end, len) = match find_event_boundary(&self.buffer) {
                Some(found) => found,
                None => {
                    return Ok(SseStep::Wait);
                },
            };
            let ghost all = self@;
            proof {
                lemma_first_bytes(all, crlf_mark(), 0);
                lemma_first_bytes(all, lf_mark(), 0);
            }
            let total: usize = self.buffer.len();
            let rest = copy_bytes(&self.buffer, end + len, total);
            let event = copy_bytes(&self.buffer, 0, end);
            self.buffer = rest;
            assert(self@ =~= all.skip(end + len));
            assert(event@ =~= all.take(end as int));
            match decode_sse_data(event.as_slice()) {
                Err(e) => {
                    return Err(e);
                },
                Ok(None) => {},
                Ok(Some(data)) => {
                    if same(data.as_str(), "[DONE]") {
                        return Ok(SseStep::Done);
                    }
                    return Ok(SseStep::Data(data));
                },
            }
        }
    }
}

fn copy_bytes(bytes: &Vec<u8>, from: usize, to: usize) -> (r: Vec<u8>)
    requires
        from <= to <= bytes@.len(),
    ensures
        r@ == bytes@.subrange(from as int, to as int),
{
    let mut out: Vec<u8> = Vec::new();
    let mut i: usize = from;
    while i < to
        invariant
            from <= i <= to <= bytes@.len(),
            out@ == bytes@.subrange(from as int, i as int),
        decreases to - i,
    {
        out.push(bytes[i]);
        i += 1;
        assert(bytes@.subrange(from as int, i as int) =~= bytes@.subrange(
            from as int,
            i - 1,
        ).push(bytes@[i - 1]));
    }
    out
}

/// How a stream is cut into pieces does not matter: what can be taken out of
/// the first piece alone is what is taken out of both together, and the rest is
/// then the same.
pub proof fn cutting_does_not_matter(a: Seq<u8>, b: Seq<u8>)
    ensures
        next_step(a).0 != Ok::<StepView, Seq<char>>(StepView::Wait) ==> next_step(a + b) == (
            next_step(a).0,
            next_step(a).1 + b,
        ),
        next_step(a).0 == Ok::<StepView, Seq<char>>(StepView::Wait) ==> next_step(a + b)
            == next_step(next_step(a).1 + b),
    decreases a.len(),
{
    match boundary(a) {
        None => {},
        Some((end, len)) => {
            lemma_first_bytes(a, crlf_mark(), 0);
            lemma_first_bytes(a, lf_mark(), 0);
            a_whole_event_stays(a, b);
            let rest = a.skip(end + len);
            assert((a + b).take(end) =~= a.take(end));
            assert((a + b).skip(end + len) =~= rest + b);
            cutting_does_not_matter(rest, b);
        },
    }
}

/// An event ends at the first blank line, which is made of two line feeds or of two
/// carriage returns with line feeds: such a mark stands there, and none stands before
/// it. Where no mark stands, no event has ended.
pub proof fn an_event_ends_at_the_first_blank_line(buffer: Seq<u8>)
    ensures
        match boundary(buffer) {
            Some((end, len)) => {
                &&& 0 <= end && end + len <= buffer.len()
                &&& (len == 4 && buffer.subrange(end, end + len) == seq![13u8, 10u8, 13u8, 10u8])
                    || (len == 2 && buffer.subrange(end, end + len) == seq![10u8, 10u8])
                &&& forall|j: int|
                    0 <= j < end ==> !#[trigger] bytes_at(buffer, lf_mark(), j) && !bytes_at(
                        buffer,
                        crlf_mark(),
                        j,
                    )
            },
            None => forall|j: int|
                !#[trigger] bytes_at(buffer, lf_mark(), j) && !bytes_at(buffer, crlf_mark(), j),
        },
{
    lemma_first_bytes(buffer, crlf_mark(), 0);
    lemma_first_bytes(buffer, lf_mark(), 0);
}

/// The data of an event are what its lines bring that begin with the word for data, one
/// behind the other: what stands behind the word, without the space in front of it.
/// Other lines bring nothing.
pub proof fn every_data_line_counts(a: Seq<Seq<char>>, b: Seq<Seq<char>>, line: Seq<char>)
    ensures
        data_lines(a + b) == data_lines(a) + data_lines(b),
        begins(line, "data:"@) ==> data_lines(seq![line]) == seq![trimmed_start(line.skip(5))],
        !begins(line, "data:"@) ==> data_lines(seq![line]).len() == 0,
    decreases b.len(),
{
    reveal_strlit("data:");
    assert("data:"@.len() == 5);
    let one = seq![line];
    assert(one.drop_last() =~= Seq::<Seq<char>>::empty());
    reveal_with_fuel(data_lines, 2);
    if begins(line, "data:"@) {
        assert(data_lines(one) =~= seq![trimmed_start(line.skip(5))]);
    }
    if b.len() == 0 {
        assert(a + b =~= a);
        assert(data_lines(a) + data_lines(b) =~= data_lines(a));
    } else {
        every_data_line_counts(a, b.drop_last(), line);
        assert((a + b).drop_last() =~= a + b.drop_last());
        assert((a + b).last() == b.last());
        assert(data_lines(a + b) =~= data_lines(a) + data_lines(b));
    }
}

/// What is taken out of a buffer is the first event that has data: the bytes behind it
/// are what is left. Nothing that has not ended is taken.
pub proof fn events_are_taken_in_order(buffer: Seq<u8>)
    ensures
        match boundary(buffer) {
            None => next_step(buffer) == (Ok::<StepView, Seq<char>>(StepView::Wait), buffer),
            Some((end, len)) => match data_of(buffer.take(end)) {
                Ok(None) => next_step(buffer) == next_step(buffer.skip(end + len)),
                Ok(Some(data)) => {
                    &&& next_step(buffer).1 == buffer.skip(end + len)
                    &&& data != "[DONE]"@ ==> next_step(buffer).0 == Ok::<StepView, Seq<char>>(
                        StepView::Data(data),
                    )
                    &&& data == "[DONE]"@ ==> next_step(buffer).0 == Ok::<StepView, Seq<char>>(
                        StepView::Done,
                    )
                },
                Err(m) => next_step(buffer) == (Err::<StepView, Seq<char>>(m), buffer.skip(
                    end + len,
                )),
            },
        },
{
}

} // verus!
