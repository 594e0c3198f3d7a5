//! What a tool's result becomes before a model sees it.
use crate::json::{json_string, json_string_of};
use crate::seqs::lemma_slot;
use crate::session::compaction::saturated;
use crate::text::{
    byte_count, byte_len, char_byte_count, char_bytes, chars_of, decimal, decimal_of,
    lemma_byte_len_concat, lemma_byte_len_plain, lemma_byte_len_push, lemma_decimal_bytes,
    string_of, ten_to,
};
use crate::tools::{tool_names, RegistryView, ToolRegistry};
use vstd::prelude::*;

verus! {

/// How much room a shortened result leaves for what is put around it, in bytes.
pub const PREVIEW_MARGIN: usize = 128;

/// The smallest limit on a result, in bytes.
pub const MIN_OUTPUT_BYTES: usize = 256;

/// How many characters of `s` fit into `room` bytes.
pub open spec fn fitting(s: Seq<char>, room: nat) -> nat
    decreases s.len(),
{
    if s.len() == 0 || char_bytes(s[0]) > room {
        0
    } else {
        1 + fitting(s.drop_first(), (room - char_bytes(s[0])) as nat)
    }
}

proof fn lemma_fitting(s: Seq<char>, room: nat)
    ensures
        fitting(s, room) <= s.len(),
        byte_len(s.take(fitting(s, room) as int)) <= room,
    decreases s.len(),
{
    if s.len() > 0 && char_bytes(s[0]) <= room {
        let rest = s.drop_first();
        let k = fitting(rest, (room - char_bytes(s[0])) as nat);
        lemma_fitting(rest, (room - char_bytes(s[0])) as nat);
        let t = s.take((1 + k) as int);
        assert(t.drop_first() =~= rest.take(k as int));
    } else {
        assert(s.take(0) =~= Seq::<char>::empty());
    }
}

/// A shortened result: a JSON object that says so, how long the whole was, and
/// how it begins.
pub open spec fn preview_json(original_bytes: nat, preview: Seq<char>) -> Seq<char> {
    "{\"original_bytes\":"@ + decimal(original_bytes) + ",\"preview\":"@ + json_string(preview)
        + ",\"truncated\":true}"@
}

/// A result shortened to `max` bytes, where at most `room` bytes of it are
/// tried first, and then three quarters of that, until it fits or nothing of it
/// is left.
pub open spec fn shortened(rendered: Seq<char>, max: nat, room: nat) -> Seq<char>
    decreases room,
{
    let preview = rendered.take(fitting(rendered, room) as int);
    let used = byte_len(preview);
    let document = preview_json(byte_len(rendered), preview);
    if byte_len(document) <= max || used == 0 || used > room {
        document
    } else {
        proof {
            assert(saturated(used as int, 3) <= 3 * used);
        }
        shortened(rendered, max, (saturated(used as int, 3) / 4) as nat)
    }
}

/// A result as a model sees it: itself where it fits into `max` bytes, else
/// shortened.
pub open spec fn limited(rendered: Seq<char>, max: nat) -> Seq<char> {
    if byte_len(rendered) <= max {
        rendered
    } else {
        let room = if max >= PREVIEW_MARGIN {
            (max - PREVIEW_MARGIN) as nat
        } else {
            0
        };
        shortened(rendered, max, room)
    }
}

/// The first characters that fit into `room` bytes.
fn take_fitting(chars: &Vec<char>, room: usize) -> (r: (usize, usize))
    ensures
        r.0 == fitting(chars@, room as nat),
        r.1 == byte_len(chars@.take(r.0 as int)),
        r.0 <= chars.len(),
        r.1 <= room,
{
    let mut used: usize = 0;
    let mut i: usize = 0;
    assert(chars@.skip(0) =~= chars@);
    assert(chars@.take(0) =~= Seq::<char>::empty());
    while i < chars.len()
        invariant
            i <= chars.len(),
            used <= room,
            used == byte_len(chars@.take(i as int)),
            fitting(chars@, room as nat) == i + fitting(
                chars@.skip(i as int),
                (room - used) as nat,
            ),
        decreases chars.len() - i,
    {
        let width = char_byte_count(chars[i]);
        proof {
            assert(chars@.skip(i as int).drop_first() =~= chars@.skip(i + 1));
            assert(chars@.skip(i as int)[0] == chars@[i as int]);
            lemma_byte_len_push(chars@.take(i as int), chars@[i as int]);
            assert(chars@.take(i as int).push(chars@[i as int]) =~= chars@.take(i + 1));
        }
        if width > room - used {
            return (i, used);
        }
        used = used + width;
        i += 1;
    }
    (i, used)
}

fn encode_preview(original_bytes: usize, preview: &str) -> (r: String)
    ensures
        r@ == preview_json(original_bytes as nat, preview@),
{
    let mut out: String = "{\"original_bytes\":".to_owned();
    out.append(decimal_of(original_bytes as u64).as_str());
    out.append(",\"preview\":");
    out.append(json_string_of(preview).as_str());
    out.append(",\"truncated\":true}");
    out
}

fn saturating_triple(n: usize) -> (r: usize)
    ensures
        r == saturated(n as int, 3),
{
    match n.checked_mul(3) {
        Some(product) => product,
        None => usize::MAX,
    }
}

/// A result as a model sees it. `rendered` is the result as a compact JSON
/// text, and so is what comes back.
pub fn limit_tool_result(rendered: String, max_bytes: usize) -> (r: String)
    ensures
        r@ == limited(rendered@, max_bytes as nat),
        max_bytes >= MIN_OUTPUT_BYTES ==> byte_len(r@) <= max_bytes,
{
    let total = byte_count(rendered.as_str());
    proof {
        if max_bytes >= MIN_OUTPUT_BYTES {
            results_keep_to_the_limit(rendered@, max_bytes as nat);
        }
    }
    if total <= max_bytes {
        return rendered;
    }
    let chars = chars_of(rendered.as_str());
    let mut room: usize = max_bytes.saturating_sub(PREVIEW_MARGIN);
    loop
        invariant
            chars@ == rendered@,
            total == byte_len(rendered@),
            total > max_bytes,
            max_bytes >= MIN_OUTPUT_BYTES ==> byte_len(limited(rendered@, max_bytes as nat))
                <= max_bytes,
            limited(rendered@, max_bytes as nat) == shortened(
                rendered@,
                max_bytes as nat,
                room as nat,
            ),
        decreases room,
    {
        let (count, used) = take_fitting(&chars, room);
        let preview = string_of(&chars, 0, count);
        assert(preview@ =~= rendered@.take(count as int));
        let document = encode_preview(total, preview.as_str());
        if byte_count(document.as_str()) <= max_bytes || used == 0 {
            return document;
        }
        room = saturating_triple(used) / 4;
    }
}

/// A text of a few plain characters takes as many bytes.
proof fn lemma_frame()
    ensures
        byte_len("{\"original_bytes\":"@) == 18,
        byte_len(",\"preview\":"@) == 11,
        byte_len(",\"truncated\":true}"@) == 18,
{
    reveal_strlit("{\"original_bytes\":");
    reveal_strlit(",\"preview\":");
    reveal_strlit(",\"truncated\":true}");
    lemma_byte_len_plain("{\"original_bytes\":"@);
    lemma_byte_len_plain(",\"preview\":"@);
    lemma_byte_len_plain(",\"truncated\":true}"@);
}

/// A preview of nothing is short.
proof fn lemma_empty_preview(original_bytes: nat)
    requires
        original_bytes <= u64::MAX,
    ensures
        byte_len(preview_json(original_bytes, Seq::empty())) <= MIN_OUTPUT_BYTES,
{
    let front = "{\"original_bytes\":"@;
    let number = decimal(original_bytes);
    let middle = ",\"preview\":"@;
    let quotes = json_string(Seq::empty());
    let end = ",\"truncated\":true}"@;
    lemma_frame();
    reveal_with_fuel(ten_to, 21);
    lemma_decimal_bytes(original_bytes, 20);
    assert(quotes =~= seq!['"', '"']);
    lemma_byte_len_plain(quotes);
    lemma_byte_len_concat(front, number);
    lemma_byte_len_concat(front + number, middle);
    lemma_byte_len_concat(front + number + middle, quotes);
    lemma_byte_len_concat(front + number + middle + quotes, end);
}

/// A result as a model sees it keeps to its limit, as long as the limit is one
/// that an agent accepts; a result within the limit is not touched.
pub proof fn results_keep_to_the_limit(rendered: Seq<char>, max: nat)
    requires
        max >= MIN_OUTPUT_BYTES,
        byte_len(rendered) <= usize::MAX,
    ensures
        byte_len(rendered) <= max ==> limited(rendered, max) == rendered,
        byte_len(limited(rendered, max)) <= max,
{
    lemma_empty_preview(byte_len(rendered));
    if byte_len(rendered) > max {
        let room = if max >= PREVIEW_MARGIN {
            (max - PREVIEW_MARGIN) as nat
        } else {
            0
        };
        lemma_shortened(rendered, max, room);
    }
}

proof fn lemma_shortened(rendered: Seq<char>, max: nat, room: nat)
    ensures
        byte_len(shortened(rendered, max, room)) <= max || shortened(rendered, max, room)
            == preview_json(byte_len(rendered), Seq::empty()),
    decreases room,
{
    lemma_fitting(rendered, room);
    let preview = rendered.take(fitting(rendered, room) as int);
    let used = byte_len(preview);
    if byte_len(preview_json(byte_len(rendered), preview)) <= max {
    } else if used == 0 {
        if preview.len() > 0 {
            assert(byte_len(preview) >= char_bytes(preview[0]));
        }
        assert(preview =~= Seq::<char>::empty());
    } else {
        assert(saturated(used as int, 3) <= 3 * used);
        lemma_shortened(rendered, max, (saturated(used as int, 3) / 4) as nat);
    }
}

/// The result of a call that went wrong.
pub open spec fn error_json(message: Seq<char>) -> Seq<char> {
    "{\"error\":"@ + json_string(message) + "}"@
}

/// The result of a call that went wrong.
pub fn error_result(message: &str) -> (r: String)
    ensures
        r@ == error_json(message@),
{
    let mut out: String = "{\"error\":".to_owned();
    out.append(json_string_of(message).as_str());
    out.append("}");
    out
}

/// The result of a call of a tool that there is not.
pub fn unknown_tool_result(name: &str) -> (r: String)
    ensures
        r@ == error_json("unknown tool: "@ + name@),
{
    let mut message: String = "unknown tool: ".to_owned();
    message.append(name);
    error_result(message.as_str())
}

/// The result of a call of a tool that the policy keeps from running.
pub fn blocked_tool_result(name: &str) -> (r: String)
    ensures
        r@ == error_json("tool is blocked by policy: "@ + name@),
{
    let mut message: String = "tool is blocked by policy: ".to_owned();
    message.append(name);
    error_result(message.as_str())
}

/// The result of a call that took too long.
pub open spec fn timeout_json(timeout_ms: nat) -> Seq<char> {
    "{\"error\":"@ + json_string("tool timed out after "@ + decimal(timeout_ms) + " ms"@)
        + ",\"timeout_ms\":"@ + decimal(timeout_ms) + "}"@
}

/// The result of a call that took too long.
pub fn timeout_result(timeout_ms: u64) -> (r: String)
    ensures
        r@ == timeout_json(timeout_ms as nat),
{
    let number = decimal_of(timeout_ms);
    let mut message: String = "tool timed out after ".to_owned();
    message.append(number.as_str());
    message.append(" ms");
    let mut out: String = "{\"error\":".to_owned();
    out.append(json_string_of(message.as_str()).as_str());
    out.append(",\"timeout_ms\":");
    out.append(number.as_str());
    out.append("}");
    out
}

/// How a call of a tool ended.
#[derive(Debug)]
pub enum ToolRun {
    /// There is no such tool.
    Unknown(String),
    /// The policy keeps the tool from running.
    Blocked(String),
    /// It gave a result, a compact JSON text.
    Done(String),
    /// It failed with a message.
    Failed(String),
    /// It took too long.
    TimedOut(u64),
}

/// Whether a tool can be run at all: there is one of that name, and the policy
/// does not block it.
pub open spec fn may_run(tools: RegistryView, name: Seq<char>) -> bool {
    tool_names(tools.tools).contains(name) && !tools.blocked.contains(name)
}

/// How a call ends that is not run: nothing is said of a tool that may run.
pub fn withheld(tools: &ToolRegistry, name: &str) -> (r: Option<ToolRun>)
    ensures
        match r {
            None => may_run(tools@, name@),
            Some(ToolRun::Unknown(n)) => n@ == name@ && !tool_names(tools@.tools).contains(name@),
            Some(ToolRun::Blocked(n)) => n@ == name@ && tool_names(tools@.tools).contains(name@)
                && tools@.blocked.contains(name@),
            Some(_) => false,
        },
{
    proof {
        lemma_slot(tool_names(tools@.tools), name@);
    }
    match tools.get(name) {
        None => Some(ToolRun::Unknown(name.to_owned())),
        Some(_) => if tools.is_blocked(name) {
            Some(ToolRun::Blocked(name.to_owned()))
        } else {
            None
        },
    }
}

/// What a model is told of a call, and whether it went well. Only what a tool
/// itself gave back is cut to the limit.
pub open spec fn told(run: ToolRun, max: nat) -> (Seq<char>, bool) {
    match run {
        ToolRun::Unknown(name) => (error_json("unknown tool: "@ + name@), false),
        ToolRun::Blocked(name) => (error_json("tool is blocked by policy: "@ + name@), false),
        ToolRun::Done(result) => (limited(result@, max), true),
        ToolRun::Failed(message) => (limited(error_json(message@), max), false),
        ToolRun::TimedOut(ms) => (limited(timeout_json(ms as nat), max), false),
    }
}

/// What a model is told of a call, and whether it went well.
pub fn tell(run: ToolRun, max_output_bytes: usize) -> (r: (String, bool))
    ensures
        (r.0@, r.1) == told(run, max_output_bytes as nat),
{
    match run {
        ToolRun::Unknown(name) => (unknown_tool_result(name.as_str()), false),
        ToolRun::Blocked(name) => (blocked_tool_result(name.as_str()), false),
        ToolRun::Done(result) => (limit_tool_result(result, max_output_bytes), true),
        ToolRun::Failed(message) => (
            limit_tool_result(error_result(message.as_str()), max_output_bytes),
            false,
        ),
        ToolRun::TimedOut(ms) => (limit_tool_result(timeout_result(ms), max_output_bytes), false),
    }
}

} // verus!
