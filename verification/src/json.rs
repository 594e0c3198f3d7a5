//! JSON texts: what `serde_json` makes of a string, and of a JSON text.
use crate::error::Error;
use crate::text::maybe;
use vstd::prelude::*;

verus! {

/// A small hexadecimal digit.
pub open spec fn hex_char(d: u32) -> char {
    if d < 10 {
        (48 + d) as char
    } else {
        (87 + d) as char
    }
}

/// A character as it stands in a JSON string.
pub open spec fn escaped(c: char) -> Seq<char> {
    if c == '"' || c == '\\' {
        seq!['\\', c]
    } else if c == '\u{8}' {
        seq!['\\', 'b']
    } else if c == '\t' {
        seq!['\\', 't']
    } else if c == '\n' {
        seq!['\\', 'n']
    } else if c == '\u{c}' {
        seq!['\\', 'f']
    } else if c == '\r' {
        seq!['\\', 'r']
    } else if c <= '\u{1f}' {
        seq!['\\', 'u', '0', '0', hex_char(c as u32 / 16), hex_char(c as u32 % 16)]
    } else {
        seq![c]
    }
}

/// Characters as they stand in a JSON string.
pub open spec fn all_escaped(text: Seq<char>) -> Seq<char>
    decreases text.len(),
{
    if text.len() == 0 {
        Seq::empty()
    } else {
        all_escaped(text.drop_last()) + escaped(text.last())
    }
}

/// A text as a JSON string: in quotes, with its special characters escaped.
pub open spec fn json_string(text: Seq<char>) -> Seq<char> {
    seq!['"'] + all_escaped(text) + seq!['"']
}

/// `serde_json::to_string` of a `str`, which always succeeds: the text in
/// quotes, with a backslash before quotes and backslashes, short forms for five
/// control characters and `\u00` with two small hexadecimal digits for the other
/// characters below the space.
#[verifier::external_body]
pub(crate) fn json_string_of(text: &str) -> (r: String)
    ensures
        r@ == json_string(text@),
{
    serde_json::to_string(text).unwrap_or_default()
}

/// What a JSON text reads as, written back without white space
/// (`serde_json::from_str` to a `serde_json::Value`, and its `to_string`), or
/// the message of the parser's error.
pub uninterp spec fn json_compact(text: Seq<char>) -> Result<Seq<char>, Seq<char>>;

/// `serde_json::from_str` of a JSON text, with the value handed back as the
/// compact text that `serde_json::Value`'s `to_string` writes, and the error as
/// its message.
#[verifier::external_body]
pub(crate) fn json_compact_of(text: &str) -> (r: Result<String, Error>)
    ensures
        match json_compact(text@) {
            Ok(value) => r matches Ok(s) && s@ == value,
            Err(message) => r matches Err(e) && e@ == message,
        },
{
    match serde_json::from_str::<serde_json::Value>(text) {
        Ok(value) => Ok(value.to_string()),
        Err(error) => Err(Error { message: error.to_string() }),
    }
}

/// The string at a place in a JSON text: `serde_json::from_str`,
/// `serde_json::Value::pointer` and `serde_json::Value::as_str`. There is none
/// where the text is no JSON, holds no such place, or no string there.
pub uninterp spec fn json_text_at(text: Seq<char>, place: Seq<char>) -> Option<Seq<char>>;

/// `serde_json::Value::pointer` into a parsed JSON text, and
/// `serde_json::Value::as_str` of what stands there.
#[verifier::external_body]
pub(crate) fn json_text_of(text: &str, place: &str) -> (r: Option<String>)
    ensures
        maybe(r) == json_text_at(text@, place@),
{
    let value: serde_json::Value = serde_json::from_str(text).ok()?;
    value.pointer(place)?.as_str().map(str::to_owned)
}

/// The number at a place in a JSON text: `serde_json::from_str`,
/// `serde_json::Value::pointer` and `serde_json::Value::as_u64`. There is none
/// where the text is no JSON, holds no such place, or no such number there.
pub uninterp spec fn json_number_at(text: Seq<char>, place: Seq<char>) -> Option<u64>;

/// `serde_json::Value::pointer` into a parsed JSON text, and
/// `serde_json::Value::as_u64` of what stands there.
#[verifier::external_body]
pub(crate) fn json_number_of(text: &str, place: &str) -> (r: Option<u64>)
    ensures
        r == json_number_at(text@, place@),
{
    let value: serde_json::Value = serde_json::from_str(text).ok()?;
    value.pointer(place)?.as_u64()
}

/// Whether a JSON text holds a place: `serde_json::from_str` and
/// `serde_json::Value::pointer`.
pub uninterp spec fn json_holds(text: Seq<char>, place: Seq<char>) -> bool;

/// `serde_json::Value::pointer` into a parsed JSON text: whether there is
/// anything.
#[verifier::external_body]
pub(crate) fn json_is_at(text: &str, place: &str) -> (r: bool)
    ensures
        r == json_holds(text@, place@),
{
    match serde_json::from_str::<serde_json::Value>(text) {
        Ok(value) => value.pointer(place).is_some(),
        Err(_) => false,
    }
}

} // verus!
