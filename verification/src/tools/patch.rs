//! Exact text replacements: each must match once, and all must, or nothing is
//! changed.
use crate::error::{fail, fail_about, Error};
use crate::text::{
    chars_of, decimal, decimal_of, find_from, first_place, is_at, maybe, occurs_at, same, string_of,
};
use vstd::prelude::*;

verus! {

/// One replacement, as it was given: either text may be missing.
#[derive(Debug)]
pub struct Edit {
    pub old_text: Option<String>,
    pub new_text: Option<String>,
}

/// How often `needle` stands in `s` from position `from` on, not counting
/// places that overlap an earlier one.
pub open spec fn occurrences(s: Seq<char>, needle: Seq<char>, from: int) -> nat
    decreases s.len() - from,
{
    if needle.len() == 0 || from < 0 || from + needle.len() > s.len() {
        0
    } else if occurs_at(s, needle, from) {
        1 + occurrences(s, needle, from + needle.len())
    } else {
        occurrences(s, needle, from + 1)
    }
}

/// `s` with the first `needle` in it replaced.
pub open spec fn replaced(s: Seq<char>, needle: Seq<char>, new: Seq<char>) -> Seq<char> {
    let k = first_place(s, needle, 0);
    s.take(k) + new + s.skip(k + needle.len())
}

/// The name of an edit in messages.
pub open spec fn edit_name(index: nat) -> Seq<char> {
    "edits["@ + decimal(index) + "]"@
}

/// A text after one edit, or why the edit cannot be made.
pub open spec fn edited(
    s: Seq<char>,
    index: nat,
    old_text: Option<Seq<char>>,
    new_text: Option<Seq<char>>,
) -> Result<Seq<char>, Seq<char>> {
    match old_text {
        None => Err(edit_name(index) + ".old_text must be a string"@),
        Some(old) => match new_text {
            None => Err(edit_name(index) + ".new_text must be a string"@),
            Some(new) => {
                let n = occurrences(s, old, 0);
                if old.len() == 0 {
                    Err(edit_name(index) + ".old_text must not be empty"@)
                } else if old == new {
                    Err(edit_name(index) + " does not change the file"@)
                } else if n == 1 {
                    Ok(replaced(s, old, new))
                } else if n == 0 {
                    Err(edit_name(index) + " context was not found; file was not changed"@)
                } else {
                    Err(
                        edit_name(index) + " context matched "@ + decimal(n)
                            + " times; provide more context; file was not changed"@,
                    )
                }
            },
        },
    }
}

/// A text after the first `k` edits, or the first reason why one cannot be
/// made.
pub open spec fn patched(s: Seq<char>, edits: Seq<Edit>, k: nat) -> Result<Seq<char>, Seq<char>>
    decreases k,
{
    if k == 0 {
        Ok(s)
    } else {
        match patched(s, edits, (k - 1) as nat) {
            Err(m) => Err(m),
            Ok(t) => edited(
                t,
                (k - 1) as nat,
                maybe(edits[k - 1].old_text),
                maybe(edits[k - 1].new_text),
            ),
        }
    }
}

/// The outcome of a patch: all edits, of which there must be one.
pub open spec fn patch_of(s: Seq<char>, edits: Seq<Edit>) -> Result<Seq<char>, Seq<char>> {
    if edits.len() == 0 {
        Err("edits must not be empty"@)
    } else {
        patched(s, edits, edits.len())
    }
}

/// Counts the places of `needle`, not counting overlaps.
fn count_places(chars: &Vec<char>, needle: &Vec<char>) -> (r: u64)
    requires
        needle@.len() > 0,
    ensures
        r == occurrences(chars@, needle@, 0),
{
    let mut count: u64 = 0;
    let mut i: usize = 0;
    while i < chars.len()
        invariant
            needle@.len() > 0,
            count <= i,
            i <= chars.len(),
            count + occurrences(chars@, needle@, i as int) == occurrences(chars@, needle@, 0),
        decreases chars.len() - i,
    {
        if needle.len() > chars.len() - i {
            return count;
        }
        if is_at(chars, needle, i) {
            count += 1;
            i += needle.len();
        } else {
            i += 1;
        }
    }
    count
}

proof fn lemma_first_place(s: Seq<char>, needle: Seq<char>, from: int, at: int)
    requires
        0 <= from <= at,
        occurs_at(s, needle, at),
        forall|j: int| from <= j < at ==> !occurs_at(s, needle, j),
    ensures
        first_place(s, needle, from) == at,
    decreases at - from,
{
    if from < at {
        lemma_first_place(s, needle, from + 1, at);
    }
}

proof fn lemma_no_place(s: Seq<char>, needle: Seq<char>, from: int)
    requires
        0 <= from,
        forall|j: int| from <= j ==> !occurs_at(s, needle, j),
    ensures
        occurrences(s, needle, from) == 0,
    decreases s.len() - from,
{
    if needle.len() > 0 && from + needle.len() <= s.len() {
        lemma_no_place(s, needle, from + 1);
    }
}

fn edit_error(index: usize, what: &str) -> (r: Error)
    ensures
        r@ == edit_name(index as nat) + what@,
{
    let mut tail: String = "]".to_owned();
    tail.append(what);
    let out = fail_about("edits[", decimal_of(index as u64).as_str(), tail.as_str());
    assert(out@ =~= edit_name(index as nat) + what@);
    out
}

/// Makes one edit.
fn apply_edit(text: &str, index: usize, edit: &Edit) -> (r: Result<String, Error>)
    ensures
        match edited(text@, index as nat, maybe(edit.old_text), maybe(edit.new_text)) {
            Ok(t) => r matches Ok(s) && s@ == t,
            Err(m) => r matches Err(e) && e@ == m,
        },
{
    let old_text = match &edit.old_text {
        Some(text) => text,
        None => {
            return Err(edit_error(index, ".old_text must be a string"));
        },
    };
    let new_text = match &edit.new_text {
        Some(text) => text,
        None => {
            return Err(edit_error(index, ".new_text must be a string"));
        },
    };
    if old_text.as_str().is_empty() {
        return Err(edit_error(index, ".old_text must not be empty"));
    }
    if same(old_text.as_str(), new_text.as_str()) {
        return Err(edit_error(index, " does not change the file"));
    }
    let chars = chars_of(text);
    let needle = chars_of(old_text.as_str());
    let count = count_places(&chars, &needle);
    if count == 1 {
        match find_from(&chars, &needle, 0) {
            Some(at) => {
                proof {
                    lemma_first_place(chars@, needle@, 0, at as int);
                }
                let total: usize = chars.len();
                let width: usize = needle.len();
                assert(at + width <= total);
                let mut out = string_of(&chars, 0, at);
                out.append(new_text.as_str());
                out.append(string_of(&chars, at + width, total).as_str());
                assert(out@ =~= replaced(text@, old_text@, new_text@));
                Ok(out)
            },
            None => {
                proof {
                    lemma_no_place(chars@, needle@, 0);
                }
                assert(false);
                Err(edit_error(index, " context was not found; file was not changed"))
            },
        }
    } else if count == 0 {
        Err(edit_error(index, " context was not found; file was not changed"))
    } else {
        let mut what: String = " context matched ".to_owned();
        what.append(decimal_of(count).as_str());
        what.append(" times; provide more context; file was not changed");
        let out = edit_error(index, what.as_str());
        assert(out@ =~= edit_name(index as nat) + " context matched "@ + decimal(count as nat)
            + " times; provide more context; file was not changed"@);
        Err(out)
    }
}

/// The text after all edits. Where one of them cannot be made there is no new
/// text at all.
pub fn apply_edits(original: &str, edits: &Vec<Edit>) -> (r: Result<String, Error>)
    ensures
        match patch_of(original@, edits@) {
            Ok(t) => r matches Ok(s) && s@ == t,
            Err(m) => r matches Err(e) && e@ == m,
        },
{
    if edits.len() == 0 {
        return Err(fail("edits must not be empty"));
    }
    let mut updated: String = original.to_owned();
    let mut i: usize = 0;
    while i < edits.len()
        invariant
            i <= edits.len(),
            edits@.len() > 0,
            patched(original@, edits@, i as nat) == Ok::<Seq<char>, Seq<char>>(updated@),
        decreases edits.len() - i,
    {
        match apply_edit(updated.as_str(), i, &edits[i]) {
            Ok(next) => {
                updated = next;
            },
            Err(e) => {
                proof {
                    lemma_refused_patch(original@, edits@, (i + 1) as nat, edits@.len());
                }
                return Err(e);
            },
        }
        i += 1;
    }
    Ok(updated)
}

proof fn lemma_refused_patch(s: Seq<char>, edits: Seq<Edit>, k: nat, n: nat)
    requires
        k <= n,
        patched(s, edits, k) is Err,
    ensures
        patched(s, edits, n) == patched(s, edits, k),
    decreases n,
{
    if k < n {
        lemma_refused_patch(s, edits, k, (n - 1) as nat);
    }
}

/// An edit that is made leaves everything around the one place that it matches
/// as it was.
pub proof fn an_edit_changes_one_place(s: Seq<char>, old_text: Seq<char>, new_text: Seq<char>)
    requires
        old_text.len() > 0,
        occurrences(s, old_text, 0) == 1,
    ensures
        ({
            let k = first_place(s, old_text, 0);
            &&& occurs_at(s, old_text, k)
            &&& replaced(s, old_text, new_text).take(k) == s.take(k)
            &&& replaced(s, old_text, new_text).skip(k + new_text.len()) == s.skip(
                k + old_text.len(),
            )
            &&& occurs_at(replaced(s, old_text, new_text), new_text, k)
        }),
{
    lemma_place_exists(s, old_text, 0);
    let k = first_place(s, old_text, 0);
    let out = replaced(s, old_text, new_text);
    assert(out.take(k) =~= s.take(k));
    assert(out.skip(k + new_text.len()) =~= s.skip(k + old_text.len()));
    assert(out.subrange(k, k + new_text.len()) =~= new_text);
}

proof fn lemma_place_exists(s: Seq<char>, needle: Seq<char>, from: int)
    requires
        0 <= from,
        needle.len() > 0,
        occurrences(s, needle, from) > 0,
    ensures
        occurs_at(s, needle, first_place(s, needle, from)),
    decreases s.len() - from,
{
    if from + needle.len() <= s.len() && !occurs_at(s, needle, from) {
        lemma_place_exists(s, needle, from + 1);
    }
}

/// A text stands at one place of another: not before it, and not once more behind
/// it.
pub open spec fn stands_once(s: Seq<char>, needle: Seq<char>, at: int) -> bool {
    &&& occurs_at(s, needle, at)
    &&& forall|j: int| 0 <= j < at ==> !#[trigger] occurs_at(s, needle, j)
    &&& forall|j: int| at + needle.len() <= j ==> !#[trigger] occurs_at(s, needle, j)
}

/// A text became another in that an old text gave way to a new one, at the one
/// place where it stood.
pub open spec fn gave_way(
    s: Seq<char>,
    t: Seq<char>,
    old_text: Seq<char>,
    new_text: Seq<char>,
) -> bool {
    exists|at: int|
        {
            &&& #[trigger] stands_once(s, old_text, at)
            &&& t == s.take(at) + new_text + s.skip(at + old_text.len())
        }
}

/// An edit can be made: it has both texts, which differ, and the old one is
/// something that stands at one place.
pub open spec fn can_be_made(s: Seq<char>, edit: Edit) -> bool {
    &&& edit.old_text matches Some(old_text)
    &&& edit.new_text matches Some(new_text)
    &&& old_text@.len() > 0
    &&& old_text@ != new_text@
    &&& exists|at: int| #[trigger] stands_once(s, old_text@, at)
}

/// A patch of one edit is made where the edit can be made, and nowhere else. It
/// puts the new text in the place of the old one, also where the new one is
/// empty, and leaves everything before that place and behind it as it was.
pub proof fn a_patch_of_one_edit_replaces_one_place(s: Seq<char>, edit: Edit)
    ensures
        patch_of(s, seq![edit]) is Ok <==> can_be_made(s, edit),
        patch_of(s, seq![edit]) matches Ok(t) ==> gave_way(
            s,
            t,
            edit.old_text->Some_0@,
            edit.new_text->Some_0@,
        ),
{
    let edits = seq![edit];
    reveal_with_fuel(patched, 2);
    assert(edits[0] == edit);
    lemma_edited(s, 0, edit);
}

/// A patch of several edits is made where the edits before the last one can be
/// made, and the last one can be made of what they leave; it leaves what a patch
/// of that last one alone leaves of it.
pub proof fn a_patch_is_its_edits_one_after_the_other(s: Seq<char>, edits: Seq<Edit>, last: Edit)
    requires
        edits.len() > 0,
    ensures
        match patch_of(s, edits) {
            Err(m) => patch_of(s, edits.push(last)) == Err::<Seq<char>, Seq<char>>(m),
            Ok(t) => match patch_of(t, seq![last]) {
                Err(_) => patch_of(s, edits.push(last)) is Err,
                Ok(u) => patch_of(s, edits.push(last)) == Ok::<Seq<char>, Seq<char>>(u),
            },
        },
{
    let all = edits.push(last);
    lemma_same_start(s, edits, all, edits.len());
    assert(all[all.len() - 1] == last);
    match patch_of(s, edits) {
        Err(_) => {},
        Ok(t) => {
            let one = seq![last];
            reveal_with_fuel(patched, 2);
            assert(one[0] == last);
            lemma_edited(t, 0, last);
            lemma_edited(t, edits.len(), last);
        },
    }
}

/// Every text between the edits of a patch that was made comes of the one before it
/// by one replacement at one place: nothing but the places that the edits name is
/// changed.
pub proof fn a_patch_is_a_row_of_replacements(s: Seq<char>, edits: Seq<Edit>)
    requires
        patch_of(s, edits) is Ok,
    ensures
        exists|texts: Seq<Seq<char>>|
            {
                &&& texts.len() == edits.len() + 1
                &&& #[trigger] texts.first() == s
                &&& Ok::<Seq<char>, Seq<char>>(texts.last()) == patch_of(s, edits)
                &&& forall|i: int|
                    0 <= i < edits.len() ==> {
                        &&& can_be_made(texts[i], #[trigger] edits[i])
                        &&& gave_way(
                            texts[i],
                            texts[i + 1],
                            edits[i].old_text->Some_0@,
                            edits[i].new_text->Some_0@,
                        )
                    }
            },
    decreases edits.len(),
{
    let last = edits.last();
    let before = edits.drop_last();
    assert(before.push(last) =~= edits);
    if before.len() == 0 {
        assert(edits =~= seq![last]);
        a_patch_of_one_edit_replaces_one_place(s, last);
        let texts = seq![s, patch_of(s, edits)->Ok_0];
        assert(texts.first() == s);
    } else {
        a_patch_is_its_edits_one_after_the_other(s, before, last);
        let t = patch_of(s, before)->Ok_0;
        a_patch_is_a_row_of_replacements(s, before);
        a_patch_of_one_edit_replaces_one_place(t, last);
        let texts = choose|texts: Seq<Seq<char>>|
            {
                &&& texts.len() == before.len() + 1
                &&& #[trigger] texts.first() == s
                &&& Ok::<Seq<char>, Seq<char>>(texts.last()) == patch_of(s, before)
                &&& forall|i: int|
                    0 <= i < before.len() ==> {
                        &&& can_be_made(texts[i], #[trigger] before[i])
                        &&& gave_way(
                            texts[i],
                            texts[i + 1],
                            before[i].old_text->Some_0@,
                            before[i].new_text->Some_0@,
                        )
                    }
            };
        let all = texts.push(patch_of(s, edits)->Ok_0);
        assert(all.first() == s);
        assert forall|i: int| 0 <= i < edits.len() implies {
            &&& can_be_made(all[i], #[trigger] edits[i])
            &&& gave_way(
                all[i],
                all[i + 1],
                edits[i].old_text->Some_0@,
                edits[i].new_text->Some_0@,
            )
        } by {
            if i < before.len() {
                assert(before[i] == edits[i]);
            }
        }
    }
}

/// An edit can be made or not, and what it leaves, whichever number it has.
proof fn lemma_edited(s: Seq<char>, index: nat, edit: Edit)
    ensures
        edited(s, index, maybe(edit.old_text), maybe(edit.new_text)) is Ok <==> can_be_made(
            s,
            edit,
        ),
        edited(s, index, maybe(edit.old_text), maybe(edit.new_text)) matches Ok(t) ==> {
            &&& gave_way(s, t, edit.old_text->Some_0@, edit.new_text->Some_0@)
            &&& edited(s, 0, maybe(edit.old_text), maybe(edit.new_text)) == Ok::<
                Seq<char>,
                Seq<char>,
            >(t)
        },
{
    if edit.old_text is Some && edit.new_text is Some && edit.old_text->Some_0@.len() > 0 {
        let old = edit.old_text->Some_0@;
        lemma_occurrences(s, old, 0);
        let k = first_place(s, old, 0);
        if occurrences(s, old, 0) == 1 {
            lemma_place_exists(s, old, 0);
            lemma_none_found(s, old, k + old.len());
            assert forall|j: int| k + old.len() <= j implies !#[trigger] occurs_at(s, old, j) by {}
            lemma_none_before(s, old, 0);
            assert(stands_once(s, old, k));
        }
        if exists|at: int| #[trigger] stands_once(s, old, at) {
            let at = choose|at: int| #[trigger] stands_once(s, old, at);
            lemma_first_place(s, old, 0, at);
            lemma_no_place(s, old, at + old.len());
        }
    }
}

proof fn lemma_occurrences(s: Seq<char>, needle: Seq<char>, from: int)
    requires
        0 <= from,
        needle.len() > 0,
    ensures
        ({
            let k = first_place(s, needle, from);
            occurrences(s, needle, from) == if occurs_at(s, needle, k) {
                1 + occurrences(s, needle, k + needle.len())
            } else {
                0
            }
        }),
    decreases s.len() - from,
{
    if from + needle.len() <= s.len() && !occurs_at(s, needle, from) {
        lemma_occurrences(s, needle, from + 1);
    }
}

proof fn lemma_none_found(s: Seq<char>, needle: Seq<char>, from: int)
    requires
        0 <= from,
        needle.len() > 0,
        occurrences(s, needle, from) == 0,
    ensures
        forall|j: int| from <= j ==> !#[trigger] occurs_at(s, needle, j),
    decreases s.len() - from,
{
    if from + needle.len() <= s.len() {
        lemma_none_found(s, needle, from + 1);
    }
}

proof fn lemma_none_before(s: Seq<char>, needle: Seq<char>, from: int)
    requires
        0 <= from,
    ensures
        forall|j: int|
            from <= j < first_place(s, needle, from) ==> !#[trigger] occurs_at(s, needle, j),
    decreases s.len() + 1 - from,
{
    if from + needle.len() <= s.len() && !occurs_at(s, needle, from) {
        lemma_none_before(s, needle, from + 1);
    }
}

proof fn lemma_same_start(s: Seq<char>, edits: Seq<Edit>, all: Seq<Edit>, k: nat)
    requires
        k <= edits.len() <= all.len(),
        forall|i: int| 0 <= i < edits.len() ==> all[i] == #[trigger] edits[i],
    ensures
        patched(s, all, k) == patched(s, edits, k),
    decreases k,
{
    if k > 0 {
        lemma_same_start(s, edits, all, (k - 1) as nat);
        assert(all[k - 1] == edits[k - 1]);
    }
}

} // verus!
