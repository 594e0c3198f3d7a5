//! The error that every refusal in this crate carries: a message for people.
use vstd::prelude::*;

verus! {

/// A refusal, with the message that says why.
#[derive(Debug)]
pub struct Error {
    pub message: String,
}

impl View for Error {
    type V = Seq<char>;

    open spec fn view(&self) -> Seq<char> {
        self.message@
    }
}

/// The error that says `message`.
pub fn fail(message: &str) -> (r: Error)
    ensures
        r@ == message@,
{
    Error { message: message.to_owned() }
}

/// The error that says `message`, and then `detail`.
pub fn fail_with(message: &str, detail: &str) -> (r: Error)
    ensures
        r@ == message@ + detail@,
{
    let mut text: String = message.to_owned();
    text.append(detail);
    Error { message: text }
}

/// The error that says `detail` between `before` and `after`.
pub fn fail_about(before: &str, detail: &str, after: &str) -> (r: Error)
    ensures
        r@ == before@ + detail@ + after@,
{
    let mut text: String = before.to_owned();
    text.append(detail);
    text.append(after);
    Error { message: text }
}

} // verus!
