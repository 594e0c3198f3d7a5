//! The other form of messages, in which an answer is a list of blocks.
use crate::error::{fail, Error};
use crate::json::{
    json_compact, json_compact_of, json_holds, json_is_at, json_number_at, json_number_of,
    json_string, json_string_of, json_text_at, json_text_of,
};
use crate::llm::protocol::{
    call_views, AssistantMessage, CallView, CalledFunction, ChatMessage, ChatResponse,
    ChatStreamResponse, Choice, LlmEvent, MessageView, ToolCall, ToolDefinition,
};
use crate::llm::stream::{
    amended, builder_views, call_of, event_texts, gathered, keep_unless_empty, report_text,
    text_or_empty, unless_empty, with_part, AnswerView, BuilderView, CallBuilders,
};
use crate::text::{join, joined, lemma_texts_push, maybe, same, texts};
use vstd::prelude::*;

verus! {

/// The longest answer that is asked for, in tokens.
pub const MAX_TOKENS: u32 = 8192;

/// A block of a message; `input` is a JSON text.
#[derive(Debug)]
pub enum Block {
    Text { text: String },
    ToolUse { id: String, name: String, input: String },
    ToolResult { tool_use_id: String, content: String },
}

/// The view of a block.
pub enum BlockView {
    Text { text: Seq<char> },
    ToolUse { id: Seq<char>, name: Seq<char>, input: Seq<char> },
    ToolResult { tool_use_id: Seq<char>, content: Seq<char> },
}

impl View for Block {
    type V = BlockView;

    open spec fn view(&self) -> BlockView {
        match *self {
            Block::Text { text } => BlockView::Text { text: text@ },
            Block::ToolUse { id, name, input } => BlockView::ToolUse {
                id: id@,
                name: name@,
                input: input@,
            },
            Block::ToolResult { tool_use_id, content } => BlockView::ToolResult {
                tool_use_id: tool_use_id@,
                content: content@,
            },
        }
    }
}

/// The views of blocks.
pub open spec fn block_views(v: Seq<Block>) -> Seq<BlockView> {
    v.map_values(|b: Block| b@)
}

/// A message made of blocks.
#[derive(Debug)]
pub struct Message {
    pub role: String,
    pub content: Vec<Block>,
}

/// The view of a message.
#[verifier::ext_equal]
pub struct NativeView {
    pub role: Seq<char>,
    pub content: Seq<BlockView>,
}

impl View for Message {
    type V = NativeView;

    open spec fn view(&self) -> NativeView {
        NativeView { role: self.role@, content: block_views(self.content@) }
    }
}

/// The views of messages.
pub open spec fn native_views(v: Seq<Message>) -> Seq<NativeView> {
    v.map_values(|m: Message| m@)
}

/// A tool; `input_schema` is a JSON text.
#[derive(Debug)]
pub struct Tool {
    pub name: String,
    pub description: String,
    pub input_schema: String,
}

/// A request. The temperature is kept as the bits of its floating-point form.
#[derive(Debug)]
pub struct Request {
    pub model: String,
    pub max_tokens: u32,
    pub messages: Vec<Message>,
    pub system: Option<String>,
    pub tools: Vec<Tool>,
    pub temperature_bits: Option<u32>,
    pub stream: bool,
}

/// The arguments of a call as a JSON value: what they read as, or, where they
/// are no JSON, an object that holds them as they are.
pub open spec fn input_of(arguments: Seq<char>) -> Seq<char> {
    match json_compact(arguments) {
        Ok(value) => value,
        Err(_) => "{\"raw_arguments\":"@ + json_string(arguments) + "}"@,
    }
}

/// The blocks of some calls.
pub open spec fn call_blocks(calls: Seq<CallView>) -> Seq<BlockView> {
    calls.map_values(
        |c: CallView| BlockView::ToolUse { id: c.id, name: c.name, input: input_of(c.arguments) },
    )
}

/// The block of a text, unless it is empty.
pub open spec fn text_block(text: Seq<char>) -> Seq<BlockView> {
    if text.len() == 0 {
        Seq::empty()
    } else {
        seq![BlockView::Text { text }]
    }
}

/// The calls of a message.
pub open spec fn calls_or_none(calls: Option<Seq<CallView>>) -> Seq<CallView> {
    match calls {
        Some(calls) => calls,
        None => Seq::empty(),
    }
}

/// What becomes of a message: system messages go elsewhere, an answer with
/// nothing in it is left out, a tool's result is said by the user, and so is
/// everything else.
pub open spec fn native_of(m: MessageView) -> Option<NativeView> {
    if m.role == "system"@ {
        None
    } else if m.role == "assistant"@ {
        let content = text_block(m.content) + call_blocks(calls_or_none(m.tool_calls));
        if content.len() == 0 {
            None
        } else {
            Some(NativeView { role: "assistant"@, content })
        }
    } else if m.role == "tool"@ {
        Some(
            NativeView {
                role: "user"@,
                content: seq![
                    BlockView::ToolResult {
                        tool_use_id: text_or_empty(m.tool_call_id),
                        content: m.content,
                    },
                ],
            },
        )
    } else {
        Some(NativeView { role: "user"@, content: seq![BlockView::Text { text: m.content }] })
    }
}

/// What becomes of some messages.
pub open spec fn natives_of(messages: Seq<MessageView>) -> Seq<NativeView>
    decreases messages.len(),
{
    if messages.len() == 0 {
        Seq::empty()
    } else {
        let before = natives_of(messages.drop_last());
        match native_of(messages.last()) {
            Some(m) => before.push(m),
            None => before,
        }
    }
}

/// What the system messages say, those that say something.
pub open spec fn system_parts(messages: Seq<MessageView>) -> Seq<Seq<char>>
    decreases messages.len(),
{
    if messages.len() == 0 {
        Seq::empty()
    } else {
        let before = system_parts(messages.drop_last());
        let m = messages.last();
        if m.role == "system"@ && m.content.len() > 0 {
            before.push(m.content)
        } else {
            before
        }
    }
}

/// A tool in a request is the one that was defined.
pub open spec fn is_tool(t: Tool, d: ToolDefinition) -> bool {
    t.name@ == d.function.name@ && t.description@ == d.function.description@ && t.input_schema@
        == d.function.parameters@
}

/// The blocks of an answer.
fn assistant_blocks(message: &ChatMessage) -> (r: Vec<Block>)
    ensures
        block_views(r@) == text_block(message@.content) + call_blocks(
            calls_or_none(message@.tool_calls),
        ),
{
    let mut out: Vec<Block> = Vec::new();
    if !message.content.as_str().is_empty() {
        out.push(Block::Text { text: message.content.clone() });
    }
    let ghost head = text_block(message@.content);
    assert(block_views(out@) =~= head);
    match &message.tool_calls {
        None => {
            assert(head + call_blocks(Seq::empty()) =~= head);
        },
        Some(calls) => {
            let ghost all = call_views(calls@);
            let mut i: usize = 0;
            assert(head + call_blocks(all.take(0)) =~= head);
            while i < calls.len()
                invariant
                    i <= calls.len(),
                    all == call_views(calls@),
                    block_views(out@) == head + call_blocks(all.take(i as int)),
                decreases calls.len() - i,
            {
                let call = &calls[i];
                let input = match json_compact_of(call.function.arguments.as_str()) {
                    Ok(value) => value,
                    Err(_) => {
                        let mut text: String = "{\"raw_arguments\":".to_owned();
                        text.append(json_string_of(call.function.arguments.as_str()).as_str());
                        text.append("}");
                        text
                    },
                };
                let block = Block::ToolUse {
                    id: call.id.clone(),
                    name: call.function.name.clone(),
                    input,
                };
                let ghost view = block@;
                let ghost before = block_views(out@);
                out.push(block);
                i += 1;
                assert(block_views(out@) =~= before.push(view));
                assert(all.take(i as int) =~= all.take(i - 1).push(all[i - 1]));
                assert(call_blocks(all.take(i as int)) =~= call_blocks(all.take(i - 1)).push(view));
                assert(block_views(out@) =~= head + call_blocks(all.take(i as int)));
            }
            assert(all.take(i as int) =~= all);
        },
    }
    out
}

/// What becomes of a message.
fn native_message(message: &ChatMessage) -> (r: Option<Message>)
    ensures
        match native_of(message@) {
            Some(m) => r matches Some(n) && n@ == m,
            None => r is None,
        },
{
    let role = message.role.as_str();
    if same(role, "system") {
        return None;
    }
    if same(role, "assistant") {
        let content = assistant_blocks(message);
        if content.len() == 0 {
            assert(block_views(content@).len() == 0);
            return None;
        }
        assert(block_views(content@).len() > 0);
        return Some(Message { role: "assistant".to_owned(), content });
    }
    let mut content: Vec<Block> = Vec::new();
    if same(role, "tool") {
        let tool_use_id = match &message.tool_call_id {
            Some(id) => id.clone(),
            None => String::new(),
        };
        assert(tool_use_id@ =~= text_or_empty(message@.tool_call_id));
        content.push(Block::ToolResult { tool_use_id, content: message.content.clone() });
    } else {
        content.push(Block::Text { text: message.content.clone() });
    }
    let out = Message { role: "user".to_owned(), content };
    assert(out@ =~= native_of(message@)->0);
    Some(out)
}

/// The tools of a request.
fn native_tools(tools: &Vec<ToolDefinition>) -> (r: Vec<Tool>)
    ensures
        r@.len() == tools@.len(),
        forall|i: int| 0 <= i < r@.len() ==> is_tool(#[trigger] r@[i], tools@[i]),
{
    let mut out: Vec<Tool> = Vec::new();
    let mut i: usize = 0;
    while i < tools.len()
        invariant
            i <= tools.len(),
            out@.len() == i,
            forall|j: int| 0 <= j < out@.len() ==> is_tool(#[trigger] out@[j], tools@[j]),
        decreases tools.len() - i,
    {
        out.push(
            Tool {
                name: tools[i].function.name.clone(),
                description: tools[i].function.description.clone(),
                input_schema: tools[i].function.parameters.clone(),
            },
        );
        i += 1;
    }
    out
}

/// A request for an answer to some messages.
pub fn request(
    model: &str,
    messages: &Vec<ChatMessage>,
    tools: &Vec<ToolDefinition>,
    temperature_bits: u32,
    send_temperature: bool,
    stream: bool,
) -> (r: Request)
    ensures
        r.model@ == model@,
        r.max_tokens == MAX_TOKENS,
        native_views(r.messages@) == natives_of(crate::llm::protocol::message_views(messages@)),
        maybe(r.system) == ({
            let parts = system_parts(crate::llm::protocol::message_views(messages@));
            if parts.len() == 0 {
                None
            } else {
                Some(joined(parts, "\n\n"@))
            }
        }),
        r.tools@.len() == tools@.len(),
        forall|i: int| 0 <= i < r.tools@.len() ==> is_tool(#[trigger] r.tools@[i], tools@[i]),
        r.temperature_bits == (if send_temperature {
            Some(temperature_bits)
        } else {
            None
        }),
        r.stream == stream,
{
    let ghost all = crate::llm::protocol::message_views(messages@);
    let mut parts: Vec<String> = Vec::new();
    let mut natives: Vec<Message> = Vec::new();
    let mut i: usize = 0;
    assert(texts(parts@) =~= system_parts(all.take(0)));
    assert(native_views(natives@) =~= natives_of(all.take(0)));
    while i < messages.len()
        invariant
            i <= messages.len(),
            all == crate::llm::protocol::message_views(messages@),
            texts(parts@) == system_parts(all.take(i as int)),
            native_views(natives@) == natives_of(all.take(i as int)),
        decreases messages.len() - i,
    {
        let message = &messages[i];
        proof {
            assert(all.take(i + 1).drop_last() =~= all.take(i as int));
            assert(all.take(i + 1).last() == message@);
        }
        if same(message.role.as_str(), "system") && !message.content.as_str().is_empty() {
            let part = message.content.clone();
            proof {
                lemma_texts_push(parts@, part);
            }
            parts.push(part);
        }
        match native_message(message) {
            Some(native) => {
                let ghost before = native_views(natives@);
                let ghost view = native@;
                natives.push(native);
                assert(native_views(natives@) =~= before.push(view));
            },
            None => {},
        }
        i += 1;
    }
    assert(all.take(i as int) =~= all);
    let system = if parts.len() == 0 {
        assert(texts(parts@).len() == 0);
        None
    } else {
        assert(texts(parts@).len() > 0);
        Some(join(&parts, "\n\n"))
    };
    Request {
        model: model.to_owned(),
        max_tokens: MAX_TOKENS,
        messages: natives,
        system,
        tools: native_tools(tools),
        temperature_bits: if send_temperature {
            Some(temperature_bits)
        } else {
            None
        },
        stream,
    }
}

/// A block of a response; `input` is a compact JSON text.
#[derive(Debug)]
pub enum ContentBlock {
    Text { text: String },
    ToolUse { id: String, name: String, input: String },
    Other,
}

/// The texts of a response, one behind the other.
pub open spec fn said_in(blocks: Seq<ContentBlock>) -> Seq<char>
    decreases blocks.len(),
{
    if blocks.len() == 0 {
        Seq::empty()
    } else {
        match blocks.last() {
            ContentBlock::Text { text } => said_in(blocks.drop_last()) + text@,
            _ => said_in(blocks.drop_last()),
        }
    }
}

/// The calls in a response.
pub open spec fn called_in(blocks: Seq<ContentBlock>) -> Seq<CallView>
    decreases blocks.len(),
{
    if blocks.len() == 0 {
        Seq::empty()
    } else {
        match blocks.last() {
            ContentBlock::ToolUse { id, name, input } => called_in(blocks.drop_last()).push(
                CallView { id: id@, call_type: "function"@, name: name@, arguments: input@ },
            ),
            _ => called_in(blocks.drop_last()),
        }
    }
}

/// A response in the common form.
pub fn response(blocks: Vec<ContentBlock>) -> (r: ChatResponse)
    ensures
        r.usage is None,
        r.choices@.len() == 1,
        maybe(r.choices@[0].message.content) == Some(said_in(blocks@)),
        r.choices@[0].message.reasoning_content is None,
        call_views(r.choices@[0].message.tool_calls@) == called_in(blocks@),
{
    let mut content = String::new();
    let mut tool_calls: Vec<ToolCall> = Vec::new();
    assert(blocks@.take(0) =~= Seq::empty());
    assert(call_views(tool_calls@) =~= Seq::empty());
    for block in it: blocks
        invariant
            it.seq() == blocks@,
            content@ == said_in(blocks@.take(it.index() as int)),
            call_views(tool_calls@) == called_in(blocks@.take(it.index() as int)),
    {
        let ghost next = blocks@.take(it.index() + 1);
        assert(next.drop_last() =~= blocks@.take(it.index() as int));
        assert(next.last() == block);
        match block {
            ContentBlock::Text { text } => {
                content.append(text.as_str());
            },
            ContentBlock::ToolUse { id, name, input } => {
                let call = ToolCall {
                    id,
                    call_type: "function".to_owned(),
                    function: CalledFunction { name, arguments: input },
                };
                assert(call_views(tool_calls@.push(call)) =~= call_views(tool_calls@).push(call@));
                tool_calls.push(call);
            },
            ContentBlock::Other => {},
        }
    }
    assert(blocks@.take(blocks@.len() as int) =~= blocks@);
    let mut choices: Vec<Choice> = Vec::new();
    choices.push(
        Choice {
            message: AssistantMessage {
                content: Some(content),
                reasoning_content: None,
                tool_calls,
            },
        },
    );
    ChatResponse { choices, usage: None }
}

/// What an event of a stream holds, as far as it is looked at.
#[derive(Debug)]
pub struct StreamEvent {
    pub kind: Option<String>,
    pub index: Option<u64>,
    pub has_block: bool,
    pub block_kind: Option<String>,
    pub block_id: Option<String>,
    pub block_name: Option<String>,
    pub has_delta: bool,
    pub delta_kind: Option<String>,
    pub text: Option<String>,
    pub thinking: Option<String>,
    pub partial_json: Option<String>,
}

/// The view of an event.
#[verifier::ext_equal]
pub struct EventView {
    pub kind: Option<Seq<char>>,
    pub index: Option<u64>,
    pub has_block: bool,
    pub block_kind: Option<Seq<char>>,
    pub block_id: Option<Seq<char>>,
    pub block_name: Option<Seq<char>>,
    pub has_delta: bool,
    pub delta_kind: Option<Seq<char>>,
    pub text: Option<Seq<char>>,
    pub thinking: Option<Seq<char>>,
    pub partial_json: Option<Seq<char>>,
}

impl View for StreamEvent {
    type V = EventView;

    open spec fn view(&self) -> EventView {
        EventView {
            kind: maybe(self.kind),
            index: self.index,
            has_block: self.has_block,
            block_kind: maybe(self.block_kind),
            block_id: maybe(self.block_id),
            block_name: maybe(self.block_name),
            has_delta: self.has_delta,
            delta_kind: maybe(self.delta_kind),
            text: maybe(self.text),
            thinking: maybe(self.thinking),
            partial_json: maybe(self.partial_json),
        }
    }
}

/// What a JSON text holds as an event.
pub open spec fn event_in(data: Seq<char>) -> EventView {
    EventView {
        kind: json_text_at(data, "/type"@),
        index: json_number_at(data, "/index"@),
        has_block: json_holds(data, "/content_block"@),
        block_kind: json_text_at(data, "/content_block/type"@),
        block_id: json_text_at(data, "/content_block/id"@),
        block_name: json_text_at(data, "/content_block/name"@),
        has_delta: json_holds(data, "/delta"@),
        delta_kind: json_text_at(data, "/delta/type"@),
        text: json_text_at(data, "/delta/text"@),
        thinking: json_text_at(data, "/delta/thinking"@),
        partial_json: json_text_at(data, "/delta/partial_json"@),
    }
}

/// What an event brings: the answer so far, whether it was the last event, and
/// the text that is reported.
pub struct EventOutcome {
    pub answer: AnswerView,
    pub last: bool,
    pub said: Option<Seq<char>>,
}

/// An answer after an event has come in, or what is wrong with the event.
pub open spec fn event_step(a: AnswerView, e: EventView) -> Result<EventOutcome, Seq<char>> {
    let unchanged = EventOutcome { answer: a, last: false, said: None };
    if e.kind == Some("content_block_start"@) {
        if e.index is None {
            Err("Anthropic tool block is missing index"@)
        } else if !e.has_block {
            Err("Anthropic block start is missing content_block"@)
        } else if e.block_kind != Some("tool_use"@) {
            Ok(unchanged)
        } else {
            Ok(
                EventOutcome {
                    answer: AnswerView {
                        calls: amended(
                            a.calls,
                            BuilderView {
                                id: text_or_empty(e.block_id),
                                name: text_or_empty(e.block_name),
                                ..gathered(a.calls, e.index->0 as usize)
                            },
                        ),
                        ..a
                    },
                    ..unchanged
                },
            )
        }
    } else if e.kind == Some("content_block_delta"@) {
        let index: usize = match e.index {
            Some(n) => n as usize,
            None => 0,
        };
        if !e.has_delta {
            Err("Anthropic event is missing delta"@)
        } else if e.delta_kind == Some("text_delta"@) {
            match e.text {
                None => Ok(unchanged),
                Some(text) => Ok(
                    EventOutcome {
                        answer: AnswerView { content: a.content + text, ..a },
                        last: false,
                        said: Some(text),
                    },
                ),
            }
        } else if e.delta_kind == Some("thinking_delta"@) {
            match e.thinking {
                None => Ok(unchanged),
                Some(text) => Ok(
                    EventOutcome {
                        answer: AnswerView { reasoning: a.reasoning + text, ..a },
                        ..unchanged
                    },
                ),
            }
        } else if e.delta_kind == Some("input_json_delta"@) {
            match e.partial_json {
                None => Ok(unchanged),
                Some(text) => Ok(
                    EventOutcome {
                        answer: AnswerView {
                            calls: with_part(a.calls, index, None, None, Some(text)),
                            ..a
                        },
                        ..unchanged
                    },
                ),
            }
        } else {
            Ok(unchanged)
        }
    } else if e.kind == Some("message_stop"@) {
        Ok(EventOutcome { last: true, ..unchanged })
    } else {
        Ok(unchanged)
    }
}

/// An answer as far as it has come in.
#[derive(Debug)]
pub struct StreamAccumulator {
    content: String,
    reasoning_content: String,
    tool_calls: CallBuilders,
}

impl View for StreamAccumulator {
    type V = AnswerView;

    closed spec fn view(&self) -> AnswerView {
        AnswerView {
            content: self.content@,
            reasoning: self.reasoning_content@,
            calls: self.tool_calls@,
            usage: None,
        }
    }
}

/// Whether a text is there and is the given one.
fn is_text(text: &Option<String>, expected: &str) -> (r: bool)
    ensures
        r == (maybe(*text) == Some(expected@)),
{
    match text {
        Some(text) => same(text.as_str(), expected),
        None => false,
    }
}

/// A text, or an empty one.
fn or_empty(text: Option<String>) -> (r: String)
    ensures
        r@ == text_or_empty(maybe(text)),
{
    match text {
        Some(text) => text,
        None => {
            let empty = String::new();
            assert(empty@ =~= Seq::empty());
            empty
        },
    }
}

/// A call once the stream has ended: one without arguments has an empty object
/// for them.
pub open spec fn whole_call(b: BuilderView) -> CallView {
    CallView {
        arguments: if b.arguments.len() == 0 {
            "{}"@
        } else {
            b.arguments
        },
        ..call_of(b)
    }
}

/// The calls once the stream has ended, unless one lacks its identifier or its
/// name.
pub open spec fn whole_calls(s: Seq<BuilderView>) -> Option<Seq<CallView>> {
    if exists|i: int| 0 <= i < s.len() && (#[trigger] s[i]).id.len() * s[i].name.len() == 0 {
        None
    } else {
        Some(s.map_values(|b: BuilderView| whole_call(b)))
    }
}

/// What an event of a stream holds.
fn read_event(data: &str) -> (r: StreamEvent)
    ensures
        r@ == event_in(data@),
{
    StreamEvent {
        kind: json_text_of(data, "/type"),
        index: json_number_of(data, "/index"),
        has_block: json_is_at(data, "/content_block"),
        block_kind: json_text_of(data, "/content_block/type"),
        block_id: json_text_of(data, "/content_block/id"),
        block_name: json_text_of(data, "/content_block/name"),
        has_delta: json_is_at(data, "/delta"),
        delta_kind: json_text_of(data, "/delta/type"),
        text: json_text_of(data, "/delta/text"),
        thinking: json_text_of(data, "/delta/thinking"),
        partial_json: json_text_of(data, "/delta/partial_json"),
    }
}

/// The outcome of taking in an event.
pub open spec fn event_taken(
    old: AnswerView,
    new: AnswerView,
    e: EventView,
    said_before: Seq<Seq<char>>,
    said: Seq<Seq<char>>,
    last: Option<bool>,
    error: Option<Seq<char>>,
) -> bool {
    match event_step(old, e) {
        Err(m) => error == Some(m) && new == old && said == said_before,
        Ok(o) => error is None && new == o.answer && last == Some(o.last) && said == (match o.said {
            Some(text) => said_before.push(text),
            None => said_before,
        }),
    }
}

/// Whether an outcome says that the stream has ended.
pub open spec fn last_of(r: Result<bool, Error>) -> Option<bool> {
    match r {
        Ok(b) => Some(b),
        Err(_) => None,
    }
}

/// The message of an outcome.
pub open spec fn error_of(r: Result<bool, Error>) -> Option<Seq<char>> {
    match r {
        Ok(_) => None,
        Err(e) => Some(e@),
    }
}

impl Default for StreamAccumulator {
    fn default() -> (r: Self)
        ensures
            r@ == (AnswerView {
                content: Seq::empty(),
                reasoning: Seq::empty(),
                calls: Seq::empty(),
                usage: None,
            }),
    {
        StreamAccumulator {
            content: String::new(),
            reasoning_content: String::new(),
            tool_calls: CallBuilders::new(),
        }
    }
}

impl StreamAccumulator {
    /// Takes in an event, given as a JSON text: whether it was the last one.
    pub fn apply(&mut self, data: &str, out: &mut Vec<LlmEvent>) -> (r: Result<bool, Error>)
        ensures
            match json_compact(data@) {
                Err(_) => r matches Err(e) && e@ == "decode Anthropic SSE event"@ && final(self)@
                    == old(self)@ && final(out)@ == old(out)@,
                Ok(_) => event_taken(
                    old(self)@,
                    final(self)@,
                    event_in(data@),
                    event_texts(old(out)@),
                    event_texts(final(out)@),
                    last_of(r),
                    error_of(r),
                ),
            },
    {
        match json_compact_of(data) {
            Ok(_) => {},
            Err(_) => {
                return Err(fail("decode Anthropic SSE event"));
            },
        }
        self.apply_event(read_event(data), out)
    }

    /// Takes in an event: whether it was the last one.
    pub fn apply_event(&mut self, event: StreamEvent, out: &mut Vec<LlmEvent>) -> (r: Result<
        bool,
        Error,
    >)
        ensures
            event_taken(
                old(self)@,
                final(self)@,
                event@,
                event_texts(old(out)@),
                event_texts(final(out)@),
                last_of(r),
                error_of(r),
            ),
    {
        proof {
            reveal_strlit("content_block_start");
            reveal_strlit("content_block_delta");
            reveal_strlit("message_stop");
            reveal_strlit("text_delta");
            reveal_strlit("thinking_delta");
            reveal_strlit("input_json_delta");
        }
        if is_text(&event.kind, "content_block_start") {
            let index: u64 = match event.index {
                Some(index) => index,
                None => {
                    return Err(fail("Anthropic tool block is missing index"));
                },
            };
            if !event.has_block {
                return Err(fail("Anthropic block start is missing content_block"));
            }
            if is_text(&event.block_kind, "tool_use") {
                self.tool_calls.begin(
                    index as usize,
                    or_empty(event.block_id),
                    or_empty(event.block_name),
                );
            }
            return Ok(false);
        }
        if is_text(&event.kind, "content_block_delta") {
            let index: usize = match event.index {
                Some(index) => index as usize,
                None => 0,
            };
            if !event.has_delta {
                return Err(fail("Anthropic event is missing delta"));
            }
            if is_text(&event.delta_kind, "text_delta") {
                match event.text {
                    Some(text) => {
                        self.content.append(text.as_str());
                        report_text(out, text);
                    },
                    None => {},
                }
            } else if is_text(&event.delta_kind, "thinking_delta") {
                match event.thinking {
                    Some(text) => {
                        self.reasoning_content.append(text.as_str());
                    },
                    None => {},
                }
            } else if is_text(&event.delta_kind, "input_json_delta") {
                match event.partial_json {
                    Some(text) => {
                        self.tool_calls.extend(index, None, None, Some(text));
                    },
                    None => {},
                }
            }
            return Ok(false);
        }
        Ok(is_text(&event.kind, "message_stop"))
    }

    /// The answer, once the stream has ended.
    pub fn finish(self) -> (r: Result<ChatStreamResponse, Error>)
        ensures
            match whole_calls(self@.calls) {
                None => r matches Err(e) && e@ == "Anthropic tool call is missing id or name"@,
                Some(calls) => r matches Ok(a) && a.content@ == self@.content && maybe(
                    a.reasoning_content,
                ) == unless_empty(self@.reasoning) && call_views(a.tool_calls@) == calls && a.usage
                    is None,
            },
    {
        let items = self.tool_calls.items();
        let ghost all = builder_views(items@);
        let ghost whole = all.map_values(|b: BuilderView| whole_call(b));
        let mut tool_calls: Vec<ToolCall> = Vec::new();
        let mut i: usize = 0;
        assert(call_views(tool_calls@) =~= whole.take(0));
        while i < items.len()
            invariant
                i <= items.len(),
                all == builder_views(items@),
                all == self@.calls,
                whole == all.map_values(|b: BuilderView| whole_call(b)),
                call_views(tool_calls@) == whole.take(i as int),
                forall|j: int|
                    0 <= j < i ==> (#[trigger] all[j]).id.len() * all[j].name.len() != 0,
            decreases items.len() - i,
        {
            let item = &items[i];
            let ghost view = all[i as int];
            assert(view == item@);
            if item.id.as_str().is_empty() || item.name.as_str().is_empty() {
                assert(view.id.len() * view.name.len() == 0) by (nonlinear_arith)
                    requires
                        view.id.len() == 0 || view.name.len() == 0,
                ;
                return Err(fail("Anthropic tool call is missing id or name"));
            }
            assert(view.id.len() * view.name.len() != 0) by (nonlinear_arith)
                requires
                    view.id.len() > 0,
                    view.name.len() > 0,
            ;
            let arguments = if item.arguments.as_str().is_empty() {
                "{}".to_owned()
            } else {
                item.arguments.clone()
            };
            let call = ToolCall {
                id: item.id.clone(),
                call_type: "function".to_owned(),
                function: CalledFunction { name: item.name.clone(), arguments },
            };
            assert(call@ =~= whole_call(view));
            assert(call_views(tool_calls@.push(call)) =~= call_views(tool_calls@).push(call@));
            tool_calls.push(call);
            i += 1;
            assert(whole.take(i as int) =~= whole.take(i - 1).push(whole[i - 1]));
        }
        assert(whole.take(i as int) =~= whole);
        Ok(
            ChatStreamResponse {
                content: self.content,
                reasoning_content: keep_unless_empty(self.reasoning_content),
                tool_calls,
                usage: None,
            },
        )
    }
}

} // verus!
