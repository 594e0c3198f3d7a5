//! Identifiers: 128-bit numbers that are written as UUIDs.
use crate::error::{fail_with, Error};
use vstd::prelude::*;

verus! {

/// The hexadecimal digit of `d`, for `d` below sixteen.
pub open spec fn hex_digit(d: u128) -> char {
    if d < 10 {
        (48 + d) as char
    } else {
        (87 + d) as char
    }
}

/// The `k`-th of the 32 hexadecimal digits of `id`, from the front.
pub open spec fn nibble(id: u128, k: int) -> u128 {
    (id >> ((124 - 4 * k) as u128)) & 0xf
}

/// `id` in the hyphenated form: groups of 8, 4, 4, 4 and 12 small hexadecimal
/// digits.
pub open spec fn hyphenated(id: u128) -> Seq<char> {
    Seq::new(
        36,
        |i: int|
            if i < 8 {
                hex_digit(nibble(id, i))
            } else if i == 8 || i == 13 || i == 18 || i == 23 {
                '-'
            } else if i < 13 {
                hex_digit(nibble(id, i - 1))
            } else if i < 18 {
                hex_digit(nibble(id, i - 2))
            } else if i < 23 {
                hex_digit(nibble(id, i - 3))
            } else {
                hex_digit(nibble(id, i - 4))
            },
    )
}

/// `uuid::Uuid`'s `to_string`: the hyphenated form in small letters.
#[verifier::external_body]
pub(crate) fn uuid_text(id: u128) -> (r: String)
    ensures
        r@ == hyphenated(id),
{
    uuid::Uuid::from_u128(id).to_string()
}

/// `uuid::Uuid::new_v4`: a random identifier. Nothing is promised of it.
#[verifier::external_body]
pub(crate) fn random_uuid() -> (r: u128) {
    uuid::Uuid::new_v4().as_u128()
}

/// The identifier that `uuid::Uuid::parse_str` reads from a text, in any of
/// the forms that it accepts.
pub uninterp spec fn parsed_uuid(text: Seq<char>) -> Option<u128>;

/// `uuid::Uuid::parse_str`: the identifier that the text writes, if it writes
/// one.
#[verifier::external_body]
pub(crate) fn parse_uuid(text: &str) -> (r: Option<u128>)
    ensures
        r == parsed_uuid(text@),
{
    match uuid::Uuid::parse_str(text) {
        Ok(id) => Some(id.as_u128()),
        Err(_) => None,
    }
}

/// Names a session.
#[derive(Debug, Clone, Copy, PartialEq, Eq, Hash, Structural)]
pub struct SessionId(pub u128);

/// Names one run of the program on a session.
#[derive(Debug, Clone, Copy, PartialEq, Eq, Hash, Structural)]
pub struct RunId(pub u128);

/// Names one turn of a session.
#[derive(Debug, Clone, Copy, PartialEq, Eq, Hash, Structural)]
pub struct TurnId(pub u128);

impl SessionId {
    /// A random identifier.
    pub fn new() -> (r: Self) {
        SessionId(random_uuid())
    }

    /// A random identifier that is not this one.
    pub fn other(&self) -> (r: Self)
        ensures
            r != *self,
    {
        let id: u128 = random_uuid();
        if id != self.0 {
            SessionId(id)
        } else if id == 0 {
            SessionId(1)
        } else {
            SessionId(id - 1)
        }
    }

    /// The hyphenated form.
    pub fn to_text(&self) -> (r: String)
        ensures
            r@ == hyphenated(self.0),
    {
        uuid_text(self.0)
    }

    /// Reads an identifier.
    pub fn parse(text: &str) -> (r: Result<Self, Error>)
        ensures
            match parsed_uuid(text@) {
                Some(id) => r == Ok::<Self, Error>(SessionId(id)),
                None => r matches Err(e) && e@ == "invalid identifier: "@ + text@,
            },
    {
        match parse_uuid(text) {
            Some(id) => Ok(SessionId(id)),
            None => Err(fail_with("invalid identifier: ", text)),
        }
    }
}

impl RunId {
    /// A random identifier.
    pub fn new() -> (r: Self) {
        RunId(random_uuid())
    }

    /// The hyphenated form.
    pub fn to_text(&self) -> (r: String)
        ensures
            r@ == hyphenated(self.0),
    {
        uuid_text(self.0)
    }
}

impl TurnId {
    /// A random identifier.
    pub fn new() -> (r: Self) {
        TurnId(random_uuid())
    }

    /// The hyphenated form.
    pub fn to_text(&self) -> (r: String)
        ensures
            r@ == hyphenated(self.0),
    {
        uuid_text(self.0)
    }
}

} // verus!
