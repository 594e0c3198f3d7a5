//! What goes to a model and what comes back.
use crate::json::{json_string, json_string_of};
use crate::text::maybe;
use vstd::prelude::*;

verus! {

/// The function that a tool call names, with its arguments as a JSON text.
#[derive(Debug)]
pub struct CalledFunction {
    pub name: String,
    pub arguments: String,
}

/// One call of a tool that a model asked for.
#[derive(Debug)]
pub struct ToolCall {
    pub id: String,
    pub call_type: String,
    pub function: CalledFunction,
}

/// The view of a tool call.
#[verifier::ext_equal]
pub struct CallView {
    pub id: Seq<char>,
    pub call_type: Seq<char>,
    pub name: Seq<char>,
    pub arguments: Seq<char>,
}

impl View for ToolCall {
    type V = CallView;

    open spec fn view(&self) -> CallView {
        CallView {
            id: self.id@,
            call_type: self.call_type@,
            name: self.function.name@,
            arguments: self.function.arguments@,
        }
    }
}

impl Clone for ToolCall {
    fn clone(&self) -> (r: Self)
        ensures
            r == *self,
    {
        ToolCall {
            id: self.id.clone(),
            call_type: self.call_type.clone(),
            function: CalledFunction {
                name: self.function.name.clone(),
                arguments: self.function.arguments.clone(),
            },
        }
    }
}

/// The views of a list of calls.
pub open spec fn call_views(calls: Seq<ToolCall>) -> Seq<CallView> {
    calls.map_values(|c: ToolCall| c@)
}

/// A copy of a list of calls.
pub fn copy_calls(calls: &Vec<ToolCall>) -> (r: Vec<ToolCall>)
    ensures
        r@ == calls@,
{
    let mut out: Vec<ToolCall> = Vec::new();
    let mut i: usize = 0;
    while i < calls.len()
        invariant
            i <= calls.len(),
            out@ == calls@.take(i as int),
        decreases calls.len() - i,
    {
        out.push(calls[i].clone());
        i += 1;
        assert(calls@.take(i as int) =~= calls@.take(i - 1).push(calls@[i - 1]));
    }
    assert(calls@.take(i as int) =~= calls@);
    out
}

/// One message of a conversation.
#[derive(Debug)]
pub struct ChatMessage {
    pub role: String,
    pub content: String,
    pub reasoning_content: Option<String>,
    pub tool_call_id: Option<String>,
    pub tool_calls: Option<Vec<ToolCall>>,
}

/// The view of a message.
#[verifier::ext_equal]
pub struct MessageView {
    pub role: Seq<char>,
    pub content: Seq<char>,
    pub reasoning_content: Option<Seq<char>>,
    pub tool_call_id: Option<Seq<char>>,
    pub tool_calls: Option<Seq<CallView>>,
}

impl View for ChatMessage {
    type V = MessageView;

    open spec fn view(&self) -> MessageView {
        MessageView {
            role: self.role@,
            content: self.content@,
            reasoning_content: maybe(self.reasoning_content),
            tool_call_id: maybe(self.tool_call_id),
            tool_calls: match self.tool_calls {
                Some(calls) => Some(call_views(calls@)),
                None => None,
            },
        }
    }
}

impl Clone for ChatMessage {
    fn clone(&self) -> (r: Self)
        ensures
            r@ == self@,
    {
        ChatMessage {
            role: self.role.clone(),
            content: self.content.clone(),
            reasoning_content: self.reasoning_content.clone(),
            tool_call_id: self.tool_call_id.clone(),
            tool_calls: match &self.tool_calls {
                Some(calls) => Some(copy_calls(calls)),
                None => None,
            },
        }
    }
}

/// The views of a list of messages.
pub open spec fn message_views(messages: Seq<ChatMessage>) -> Seq<MessageView> {
    messages.map_values(|m: ChatMessage| m@)
}

/// A message that holds a role and a text, and nothing else.
pub open spec fn plain_message(role: Seq<char>, content: Seq<char>) -> MessageView {
    MessageView { role, content, reasoning_content: None, tool_call_id: None, tool_calls: None }
}

impl ChatMessage {
    /// A message that holds a role and a text, and nothing else.
    pub fn plain(role: &str, content: String) -> (r: Self)
        ensures
            r@ == plain_message(role@, content@),
    {
        ChatMessage {
            role: role.to_owned(),
            content,
            reasoning_content: None,
            tool_call_id: None,
            tool_calls: None,
        }
    }
}

/// One call as a JSON object, its fields in the order id, type, function.
pub open spec fn call_json(call: CallView) -> Seq<char> {
    "{\"id\":"@ + json_string(call.id) + ",\"type\":"@ + json_string(call.call_type)
        + ",\"function\":{\"name\":"@ + json_string(call.name) + ",\"arguments\":"@ + json_string(
        call.arguments,
    ) + "}}"@
}

/// The objects of `calls`, with commas between them.
pub open spec fn calls_body(calls: Seq<CallView>) -> Seq<char>
    decreases calls.len(),
{
    if calls.len() == 0 {
        Seq::empty()
    } else if calls.len() == 1 {
        call_json(calls[0])
    } else {
        calls_body(calls.drop_last()) + ","@ + call_json(calls.last())
    }
}

/// The calls as a JSON array.
pub open spec fn calls_json(calls: Seq<CallView>) -> Seq<char> {
    "["@ + calls_body(calls) + "]"@
}

/// Writes one call as a JSON object.
fn encode_call(call: &ToolCall) -> (r: String)
    ensures
        r@ == call_json(call@),
{
    let mut out: String = "{\"id\":".to_owned();
    out.append(json_string_of(call.id.as_str()).as_str());
    out.append(",\"type\":");
    out.append(json_string_of(call.call_type.as_str()).as_str());
    out.append(",\"function\":{\"name\":");
    out.append(json_string_of(call.function.name.as_str()).as_str());
    out.append(",\"arguments\":");
    out.append(json_string_of(call.function.arguments.as_str()).as_str());
    out.append("}}");
    out
}

/// Writes the calls as a JSON array.
pub fn encode_calls(calls: &Vec<ToolCall>) -> (r: String)
    ensures
        r@ == calls_json(call_views(calls@)),
{
    let mut body = String::new();
    let mut i: usize = 0;
    let ghost views = call_views(calls@);
    while i < calls.len()
        invariant
            i <= calls.len(),
            views == call_views(calls@),
            body@ == calls_body(views.take(i as int)),
        decreases calls.len() - i,
    {
        let ghost now = views.take(i + 1);
        if i > 0 {
            body.append(",");
        }
        body.append(encode_call(&calls[i]).as_str());
        i += 1;
        assert(now.drop_last() =~= views.take(i - 1));
        assert(now.last() == calls@[i - 1]@);
        assert(body@ =~= calls_body(now));
    }
    assert(views.take(i as int) =~= views);
    let mut out: String = "[".to_owned();
    out.append(body.as_str());
    out.append("]");
    out
}

/// How many tokens a request took, as the service counted them.
#[derive(Debug, Clone, Copy, PartialEq, Eq, Structural)]
pub struct Usage {
    pub input_tokens: u64,
    pub output_tokens: u64,
    pub total_tokens: u64,
    pub cache_read_tokens: u64,
    pub cache_write_tokens: u64,
}

/// `a + b`, held at the largest `u64`.
pub open spec fn capped_sum(a: u64, b: u64) -> u64 {
    if a + b > u64::MAX {
        u64::MAX
    } else {
        (a + b) as u64
    }
}

/// The counts of two usages added up, each held at the largest `u64`.
pub open spec fn usage_sum(a: Usage, b: Usage) -> Usage {
    Usage {
        input_tokens: capped_sum(a.input_tokens, b.input_tokens),
        output_tokens: capped_sum(a.output_tokens, b.output_tokens),
        total_tokens: capped_sum(a.total_tokens, b.total_tokens),
        cache_read_tokens: capped_sum(a.cache_read_tokens, b.cache_read_tokens),
        cache_write_tokens: capped_sum(a.cache_write_tokens, b.cache_write_tokens),
    }
}

/// A usage with its total filled in.
pub open spec fn usage_normalized(u: Usage) -> Usage {
    Usage {
        total_tokens: if u.total_tokens == 0 {
            capped_sum(u.input_tokens, u.output_tokens)
        } else {
            u.total_tokens
        },
        ..u
    }
}

impl Default for Usage {
    fn default() -> (r: Self)
        ensures
            r == (Usage {
                input_tokens: 0,
                output_tokens: 0,
                total_tokens: 0,
                cache_read_tokens: 0,
                cache_write_tokens: 0,
            }),
    {
        Usage {
            input_tokens: 0,
            output_tokens: 0,
            total_tokens: 0,
            cache_read_tokens: 0,
            cache_write_tokens: 0,
        }
    }
}

impl Usage {
    /// Fills in a total of zero with the sum of input and output.
    pub fn normalized(self) -> (r: Self)
        ensures
            r == usage_normalized(self),
    {
        let mut out = self;
        if out.total_tokens == 0 {
            out.total_tokens = out.input_tokens.saturating_add(out.output_tokens);
        }
        out
    }

    /// Adds `other` to the counts.
    pub fn add_assign(&mut self, other: Self)
        ensures
            *final(self) == usage_sum(*old(self), other),
    {
        self.input_tokens = self.input_tokens.saturating_add(other.input_tokens);
        self.output_tokens = self.output_tokens.saturating_add(other.output_tokens);
        self.total_tokens = self.total_tokens.saturating_add(other.total_tokens);
        self.cache_read_tokens = self.cache_read_tokens.saturating_add(other.cache_read_tokens);
        self.cache_write_tokens = self.cache_write_tokens.saturating_add(other.cache_write_tokens);
    }
}

/// Normalizing twice is normalizing once.
pub proof fn normalizing_is_idempotent(u: Usage)
    ensures
        usage_normalized(usage_normalized(u)) == usage_normalized(u),
{
}

/// The order in which usages are added up does not matter.
pub proof fn usage_sums_commute(a: Usage, b: Usage)
    ensures
        usage_sum(a, b) == usage_sum(b, a),
{
}

/// What a model answered.
#[derive(Debug)]
pub struct AssistantMessage {
    pub content: Option<String>,
    pub reasoning_content: Option<String>,
    pub tool_calls: Vec<ToolCall>,
}

/// One of the answers in a response.
#[derive(Debug)]
pub struct Choice {
    pub message: AssistantMessage,
}

/// A complete response of the service.
#[derive(Debug)]
pub struct ChatResponse {
    pub choices: Vec<Choice>,
    pub usage: Option<Usage>,
}

/// What a stream reports while it runs.
#[derive(Debug, PartialEq, Eq)]
pub enum LlmEvent {
    TextDelta(String),
}

/// What a stream amounts to once it has ended.
#[derive(Debug)]
pub struct ChatStreamResponse {
    pub content: String,
    pub reasoning_content: Option<String>,
    pub tool_calls: Vec<ToolCall>,
    pub usage: Option<Usage>,
}

/// A function that a model may call; `parameters` is a JSON schema text.
#[derive(Debug)]
pub struct FunctionDefinition {
    pub name: String,
    pub description: String,
    pub parameters: String,
}

/// A tool as it is offered to a model.
#[derive(Debug)]
pub struct ToolDefinition {
    pub tool_type: String,
    pub function: FunctionDefinition,
}

/// A sum of usages counts both, part for part, as long as it can be counted.
pub proof fn a_usage_sum_counts_both(a: Usage, b: Usage)
    ensures
        a.input_tokens + b.input_tokens <= u64::MAX ==> usage_sum(a, b).input_tokens
            == a.input_tokens + b.input_tokens,
        a.output_tokens + b.output_tokens <= u64::MAX ==> usage_sum(a, b).output_tokens
            == a.output_tokens + b.output_tokens,
        a.total_tokens + b.total_tokens <= u64::MAX ==> usage_sum(a, b).total_tokens
            == a.total_tokens + b.total_tokens,
        a.cache_read_tokens + b.cache_read_tokens <= u64::MAX ==> usage_sum(a, b).cache_read_tokens
            == a.cache_read_tokens + b.cache_read_tokens,
        a.cache_write_tokens + b.cache_write_tokens <= u64::MAX ==> usage_sum(
            a,
            b,
        ).cache_write_tokens == a.cache_write_tokens + b.cache_write_tokens,
        usage_sum(a, b).input_tokens >= a.input_tokens,
        usage_sum(a, b).output_tokens >= a.output_tokens,
        usage_sum(a, b).total_tokens >= a.total_tokens,
        usage_sum(a, b).cache_read_tokens >= a.cache_read_tokens,
        usage_sum(a, b).cache_write_tokens >= a.cache_write_tokens,
{
}

/// A normalized usage keeps every part, and its total is what was said or, where
/// nothing was said, the input and the output together.
pub proof fn a_normalized_usage_has_its_total(u: Usage)
    ensures
        usage_normalized(u).input_tokens == u.input_tokens,
        usage_normalized(u).output_tokens == u.output_tokens,
        usage_normalized(u).cache_read_tokens == u.cache_read_tokens,
        usage_normalized(u).cache_write_tokens == u.cache_write_tokens,
        u.total_tokens > 0 ==> usage_normalized(u).total_tokens == u.total_tokens,
        u.total_tokens == 0 && u.input_tokens + u.output_tokens <= u64::MAX ==> usage_normalized(
            u,
        ).total_tokens == u.input_tokens + u.output_tokens,
{
}

} // verus!
