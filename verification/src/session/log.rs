//! The form of a session log: one JSON object on each line. What is torn off at
//! its end can be repaired; anything else that is wrong is refused.
use crate::error::{fail, fail_with, Error};
use crate::session::event::SCHEMA_VERSION;
use crate::text::{decimal, decimal_of, joined, lemma_split_nonempty, split, split_on, texts};
use crate::text_laws::joining_undoes_splitting;
use vstd::prelude::*;
use vstd::utf8::{decode_utf8, valid_utf8};

verus! {

/// `std::str::from_utf8`: the text that the bytes encode, exactly where they
/// are valid UTF-8.
#[verifier::external_body]
pub(crate) fn utf8_text(bytes: &[u8]) -> (r: Option<String>)
    ensures
        match r {
            Some(text) => valid_utf8(bytes@) && text@ == decode_utf8(bytes@),
            None => !valid_utf8(bytes@),
        },
{
    match std::str::from_utf8(bytes) {
        Ok(text) => Some(text.to_owned()),
        Err(_) => None,
    }
}

/// The byte that ends a line.
pub const NEWLINE: u8 = 10;

/// Where the last line of `bytes` begins: behind its last newline.
pub open spec fn last_line_start(bytes: Seq<u8>) -> int
    decreases bytes.len(),
{
    if bytes.len() == 0 {
        0
    } else if bytes.last() == NEWLINE {
        bytes.len() as int
    } else {
        last_line_start(bytes.drop_last())
    }
}

/// Where the last line of `bytes` begins.
pub fn tail_start(bytes: &[u8]) -> (r: usize)
    ensures
        r == last_line_start(bytes@),
        r <= bytes.len(),
{
    let mut k: usize = bytes.len();
    assert(bytes@.take(k as int) =~= bytes@);
    while k > 0
        invariant
            k <= bytes.len(),
            last_line_start(bytes@) == last_line_start(bytes@.take(k as int)),
        decreases k,
    {
        proof {
            assert(bytes@.take(k as int).drop_last() =~= bytes@.take(k - 1));
            assert(bytes@.take(k as int).last() == bytes@[k - 1]);
        }
        if bytes[k - 1] == NEWLINE {
            return k;
        }
        k -= 1;
    }
    0
}

/// What has to be done to a log before it can be read.
#[derive(Debug, Clone, Copy, PartialEq, Eq, Structural)]
pub enum Repair {
    /// It is empty.
    Empty,
    /// It ends with a whole line.
    Intact,
    /// Its last line is whole, and only its newline is missing.
    Terminate,
    /// Its last line is torn: what stands before it is kept.
    Truncate(usize),
    /// There is no whole line in it.
    Hopeless,
}

/// What has to be done to a log, where `tail_is_event` says whether its last
/// line reads as an event.
pub open spec fn repair_of(bytes: Seq<u8>, tail_is_event: bool) -> Repair {
    if bytes.len() == 0 {
        Repair::Empty
    } else if bytes.last() == NEWLINE {
        Repair::Intact
    } else if tail_is_event {
        Repair::Terminate
    } else if last_line_start(bytes) == 0 {
        Repair::Hopeless
    } else {
        Repair::Truncate(last_line_start(bytes) as usize)
    }
}

/// Decides how a log is repaired.
pub fn plan_repair(bytes: &[u8], tail_is_event: bool) -> (r: Repair)
    ensures
        r == repair_of(bytes@, tail_is_event),
{
    if bytes.len() == 0 {
        return Repair::Empty;
    }
    if bytes[bytes.len() - 1] == NEWLINE {
        return Repair::Intact;
    }
    if tail_is_event {
        return Repair::Terminate;
    }
    let start = tail_start(bytes);
    if start == 0 {
        Repair::Hopeless
    } else {
        Repair::Truncate(start)
    }
}

/// The bytes of a log after its repair.
pub open spec fn repaired(bytes: Seq<u8>, tail_is_event: bool) -> Seq<u8> {
    match repair_of(bytes, tail_is_event) {
        Repair::Terminate => bytes.push(NEWLINE),
        Repair::Truncate(len) => bytes.take(len as int),
        _ => bytes,
    }
}

/// A log that can be repaired ends with a whole line afterwards, and a repaired
/// log needs no second repair. No byte before the torn line is lost.
pub proof fn a_repair_leaves_an_intact_log(bytes: Seq<u8>, tail_is_event: bool, again: bool)
    requires
        repair_of(bytes, tail_is_event) != Repair::Empty,
        repair_of(bytes, tail_is_event) != Repair::Hopeless,
        bytes.len() <= usize::MAX,
    ensures
        repair_of(repaired(bytes, tail_is_event), again) == Repair::Intact,
        repaired(bytes, tail_is_event).len() >= last_line_start(bytes),
        repaired(bytes, tail_is_event).take(last_line_start(bytes)) == bytes.take(
            last_line_start(bytes),
        ),
{
    lemma_last_line_start(bytes);
    let out = repaired(bytes, tail_is_event);
    match repair_of(bytes, tail_is_event) {
        Repair::Truncate(len) => {
            assert(out.last() == bytes[len - 1]);
            assert(out.take(last_line_start(bytes)) =~= bytes.take(last_line_start(bytes)));
        },
        _ => {
            assert(out.take(last_line_start(bytes)) =~= bytes.take(last_line_start(bytes)));
        },
    }
}

proof fn lemma_last_line_start(bytes: Seq<u8>)
    ensures
        0 <= last_line_start(bytes) <= bytes.len(),
        last_line_start(bytes) > 0 ==> bytes[last_line_start(bytes) - 1] == NEWLINE,
        forall|i: int| last_line_start(bytes) <= i < bytes.len() ==> bytes[i] != NEWLINE,
    decreases bytes.len(),
{
    if bytes.len() > 0 && bytes.last() != NEWLINE {
        let t = bytes.drop_last();
        lemma_last_line_start(t);
        assert forall|i: int| last_line_start(bytes) <= i < bytes.len() implies bytes[i]
            != NEWLINE by {
            if i < t.len() {
                assert(t[i] == bytes[i]);
            }
        }
    }
}

/// The lines of a text whose last line may be ended by a newline or not.
pub open spec fn lines_of(text: Seq<char>) -> Seq<Seq<char>> {
    let parts = split_on(text, '\n');
    if parts.last().len() == 0 {
        parts.drop_last()
    } else {
        parts
    }
}

/// What is wrong with a log that is only read.
pub open spec fn read_fault(bytes: Seq<u8>, path: Seq<char>) -> Option<Seq<char>> {
    if bytes.len() == 0 {
        Some("session log is empty: "@ + path)
    } else if bytes.last() != NEWLINE {
        Some("session log has an incomplete final line: "@ + path)
    } else if !valid_utf8(bytes) {
        Some("session log is not UTF-8"@)
    } else {
        None
    }
}

/// The lines of a log.
pub fn complete_lines(bytes: &[u8]) -> (r: Result<Vec<String>, Error>)
    ensures
        if valid_utf8(bytes@) {
            r matches Ok(lines) && texts(lines@) == lines_of(decode_utf8(bytes@))
        } else {
            r matches Err(e) && e@ == "session log is not UTF-8"@
        },
{
    let text = match utf8_text(bytes) {
        Some(text) => text,
        None => {
            return Err(fail("session log is not UTF-8"));
        },
    };
    let mut lines = split(text.as_str(), '\n');
    let ghost parts = texts(lines@);
    assert(parts.last() == lines@[lines@.len() - 1]@);
    if lines[lines.len() - 1].as_str().is_empty() {
        lines.pop();
        assert(texts(lines@) =~= parts.drop_last());
    }
    Ok(lines)
}

/// The lines of a log that is only read, which must be whole.
pub fn read_only_lines(bytes: &[u8], path: &str) -> (r: Result<Vec<String>, Error>)
    ensures
        match read_fault(bytes@, path@) {
            None => r matches Ok(lines) && texts(lines@) == lines_of(decode_utf8(bytes@)),
            Some(m) => r matches Err(e) && e@ == m,
        },
{
    if bytes.len() == 0 {
        return Err(fail_with("session log is empty: ", path));
    }
    if bytes[bytes.len() - 1] != NEWLINE {
        return Err(fail_with("session log has an incomplete final line: ", path));
    }
    complete_lines(bytes)
}

/// A place in a log, for messages: its path and the number of the line.
pub open spec fn place(path: Seq<char>, index: nat) -> Seq<char> {
    path + ":"@ + decimal(index + 1)
}

fn place_of(path: &str, index: usize) -> (r: String)
    requires
        index < u64::MAX,
    ensures
        r@ == place(path@, index as nat),
{
    let mut out: String = path.to_owned();
    out.append(":");
    out.append(decimal_of(index as u64 + 1).as_str());
    out
}

/// Checks one line of a log, before it is decoded.
pub fn check_line(line: &str, path: &str, index: usize) -> (r: Result<(), Error>)
    requires
        index < u64::MAX,
    ensures
        if line@.len() == 0 {
            r matches Err(e) && e@ == "session log contains an empty line at "@ + place(
                path@,
                index as nat,
            )
        } else {
            r is Ok
        },
{
    if line.is_empty() {
        Err(fail_with("session log contains an empty line at ", place_of(path, index).as_str()))
    } else {
        Ok(())
    }
}

/// The refusal of a line that is no event.
pub fn undecodable(path: &str, index: usize) -> (r: Error)
    requires
        index < u64::MAX,
    ensures
        r@ == "decode session event at "@ + place(path@, index as nat),
{
    fail_with("decode session event at ", place_of(path, index).as_str())
}

/// Checks the version of a decoded event.
pub fn check_version(version: u32) -> (r: Result<(), Error>)
    ensures
        if version == SCHEMA_VERSION {
            r is Ok
        } else {
            r matches Err(e) && e@ == "unsupported session schema version "@ + decimal(
                version as nat,
            )
        },
{
    if version == SCHEMA_VERSION {
        Ok(())
    } else {
        Err(
            fail_with(
                "unsupported session schema version ",
                decimal_of(version as u64).as_str(),
            ),
        )
    }
}

/// A repair never loses a whole line: everything up to the last line break stays as it
/// is, and an unfinished last line stays too where it holds an event. What comes
/// out ends with a line break, unless there was no whole line to keep.
pub proof fn a_repair_keeps_every_whole_line(bytes: Seq<u8>, tail_is_event: bool)
    requires
        bytes.len() <= usize::MAX,
    ensures
        ({
            let n = last_line_start(bytes);
            let out = repaired(bytes, tail_is_event);
            &&& 0 <= n <= bytes.len()
            &&& n > 0 ==> bytes[n - 1] == NEWLINE
            &&& forall|i: int| n <= i < bytes.len() ==> #[trigger] bytes[i] != NEWLINE
            &&& out.len() >= n
            &&& out.take(n) == bytes.take(n)
            &&& tail_is_event ==> out.len() >= bytes.len() && out.take(bytes.len() as int) == bytes
            &&& !tail_is_event && n > 0 ==> out == bytes.take(n)
            &&& bytes.len() > 0 && (tail_is_event || n > 0) ==> out.last() == NEWLINE
            &&& out.len() <= bytes.len() + 1
        }),
{
    lemma_last_line(bytes);
    let n = last_line_start(bytes);
    let out = repaired(bytes, tail_is_event);
    assert(out.take(n) =~= bytes.take(n));
    assert(bytes.take(bytes.len() as int) =~= bytes);
    if tail_is_event {
        assert(out.take(bytes.len() as int) =~= bytes);
    }
}

proof fn lemma_last_line(bytes: Seq<u8>)
    ensures
        ({
            let n = last_line_start(bytes);
            &&& 0 <= n <= bytes.len()
            &&& n > 0 ==> bytes[n - 1] == NEWLINE
            &&& forall|i: int| n <= i < bytes.len() ==> #[trigger] bytes[i] != NEWLINE
            &&& bytes.len() > 0 && bytes.last() == NEWLINE ==> n == bytes.len()
        }),
    decreases bytes.len(),
{
    if bytes.len() > 0 && bytes.last() != NEWLINE {
        lemma_last_line(bytes.drop_last());
        let n = last_line_start(bytes);
        assert forall|i: int| n <= i < bytes.len() implies #[trigger] bytes[i] != NEWLINE by {
            if i < bytes.len() - 1 {
                assert(bytes.drop_last()[i] == bytes[i]);
            }
        }
    }
}

/// The lines of a log make up its text, each with a line break behind it; none of them
/// holds one.
pub proof fn the_lines_make_up_the_log(text: Seq<char>)
    requires
        text.len() > 0,
        text.last() == '\n',
    ensures
        joined(lines_of(text), seq!['\n']) + seq!['\n'] == text,
        lines_of(text).len() > 0,
        forall|i: int|
            0 <= i < lines_of(text).len() ==> !(#[trigger] lines_of(text)[i]).contains('\n'),
{
    let parts = split_on(text, '\n');
    lemma_split_nonempty(text.drop_last(), '\n');
    joining_undoes_splitting(text, '\n');
    assert(parts.last().len() == 0);
    assert(parts.drop_last() =~= split_on(text.drop_last(), '\n'));
    assert(joined(parts, seq!['\n']) =~= joined(lines_of(text), seq!['\n']) + seq!['\n']);
    assert forall|i: int| 0 <= i < lines_of(text).len() implies !(
    #[trigger] lines_of(text)[i]).contains('\n') by {
        assert(lines_of(text)[i] == parts[i]);
    }
}

} // verus!
