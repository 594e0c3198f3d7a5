//! What holds of reading files, of paths, of places in code and of the policy.
use crate::json::json_string;
use crate::order::{text_before, text_order_is_total, text_order_is_transitive};
use crate::paths::under;
use crate::pieces::{lemma_both, lemma_none, lemma_within, stand_in_order};
use crate::seqs::{lemma_slot, slot_of};
use crate::text::{begins, byte_len, decimal, lemma_trimmed_is, split_on};
use crate::text_laws::a_number_is_read_as_it_was_written;
use crate::tools::filesystem::{
    concatenated, leads_out, lies_within, page_end, page_start, pieces, pieces_make_up_the_text,
};
use crate::tools::lsp::{
    header_line, json_or_null, languages_of, path_language, place_before, place_json,
    places_ordered, put_place, relative, shown, unterminated, HeaderLine, PlaceView,
    MAX_OUTPUT_BYTES, MAX_RESULTS,
};
use crate::tools::{approval_of, tool_names, RegistryView, ToolApprovalMode, ToolRisk};
use vstd::prelude::*;

verus! {

/// Lines in a row, cut anywhere, are the lines before and the lines behind.
proof fn lemma_concatenated(a: Seq<Seq<char>>, b: Seq<Seq<char>>)
    ensures
        concatenated(a + b) == concatenated(a) + concatenated(b),
    decreases b.len(),
{
    if b.len() == 0 {
        assert(a + b =~= a);
        assert(concatenated(a) + concatenated(b) =~= concatenated(a));
    } else {
        lemma_concatenated(a, b.drop_last());
        assert((a + b).drop_last() =~= a + b.drop_last());
        assert((a + b).last() == b.last());
        assert(concatenated(a + b) =~= concatenated(a) + concatenated(b));
    }
}

/// What a page of lines holds.
pub open spec fn page_text(content: Seq<char>, offset: int, limit: Option<usize>) -> Seq<char> {
    let lines = pieces(content);
    let total = lines.len() as int;
    concatenated(
        lines.subrange(page_start(total, offset), page_end(total, offset, limit)),
    )
}

/// Every line of a file but the last ends with a line break, and no line break stands
/// anywhere else in a line; no line is empty.
pub proof fn a_line_ends_where_it_breaks(s: Seq<char>)
    ensures
        forall|i: int| 0 <= i < pieces(s).len() ==> (#[trigger] pieces(s)[i]).len() > 0,
        forall|i: int|
            0 <= i < pieces(s).len() - 1 ==> (#[trigger] pieces(s)[i]).last() == '\n',
        forall|i: int, j: int|
            0 <= i < pieces(s).len() && 0 <= j < pieces(s)[i].len() - 1
                ==> #[trigger] pieces(s)[i][j] != '\n',
        s.len() > 0 ==> pieces(s).len() > 0 && pieces(s).last().last() == s.last(),
    decreases s.len(),
{
    if s.len() > 0 {
        let t = s.drop_last();
        a_line_ends_where_it_breaks(t);
        let before = pieces(t);
        let out = pieces(s);
        if s.len() == 1 || s[s.len() - 2] == '\n' {
            if s.len() > 1 {
                assert(t.last() == s[s.len() - 2]);
            } else {
                assert(t =~= Seq::<char>::empty());
            }
            assert forall|i: int| 0 <= i < out.len() - 1 implies (#[trigger] out[i]).last()
                == '\n' by {
                assert(out[i] == before[i]);
            }
            assert forall|i: int| 0 <= i < out.len() implies (#[trigger] out[i]).len() > 0 by {
                if i < before.len() {
                    assert(out[i] == before[i]);
                }
            }
            assert forall|i: int, j: int|
                0 <= i < out.len() && 0 <= j < out[i].len() - 1 implies #[trigger] out[i][j]
                != '\n' by {
                if i < before.len() {
                    assert(out[i][j] == before[i][j]);
                }
            }
        } else {
            let grown = before.last().push(s.last());
            assert(t.last() == s[s.len() - 2]);
            assert forall|i: int| 0 <= i < out.len() - 1 implies (#[trigger] out[i]).last()
                == '\n' by {
                assert(out[i] == before[i]);
            }
            assert forall|i: int| 0 <= i < out.len() implies (#[trigger] out[i]).len() > 0 by {
                if i < before.len() - 1 {
                    assert(out[i] == before[i]);
                }
            }
            assert forall|i: int, j: int|
                0 <= i < out.len() && 0 <= j < out[i].len() - 1 implies #[trigger] out[i][j]
                != '\n' by {
                if i < before.len() - 1 {
                    assert(out[i][j] == before[i][j]);
                } else if j < before.last().len() - 1 {
                    assert(out[i][j] == before[before.len() - 1][j]);
                } else {
                    assert(out[i][j] == before.last().last());
                }
            }
        }
    }
}

/// Without an offset and a limit a file is read whole. Read in pages, it loses no line
/// and repeats none: a page goes on where the one before it ended, each page but the
/// one behind the end holds a line, and two pages together are one page of both
/// limits.
pub proof fn pages_follow_one_another(
    content: Seq<char>,
    offset: usize,
    first: usize,
    second: usize,
)
    requires
        first > 0,
        second > 0,
        first + second <= usize::MAX,
    ensures
        page_text(content, 0, None) == content,
        ({
            let total = pieces(content).len() as int;
            let start = page_start(total, offset as int);
            let end = page_end(total, offset as int, Some(first));
            &&& 0 <= start <= end <= total
            &&& offset <= total ==> start == offset
            &&& end - start <= first
            &&& start < total ==> end > start
            &&& end < total ==> end - start == first
            &&& page_start(total, end) == end
            &&& page_text(content, offset as int, Some(first)) + page_text(
                content,
                end,
                Some(second),
            ) == page_text(content, offset as int, Some((first + second) as usize))
        }),
{
    let lines = pieces(content);
    let total = lines.len() as int;
    pieces_make_up_the_text(content);
    assert(lines.subrange(0, total) =~= lines);
    let start = page_start(total, offset as int);
    let end = page_end(total, offset as int, Some(first));
    let last = page_end(total, end, Some(second));
    let both = page_end(total, offset as int, Some((first + second) as usize));
    assert(last == both);
    lemma_concatenated(lines.subrange(start, end), lines.subrange(end, last));
    assert(lines.subrange(start, end) + lines.subrange(end, last) =~= lines.subrange(
        start,
        both,
    ));
}

/// A path lies within a directory only where it is the directory itself or goes on
/// behind it after a slash: a directory whose name only begins alike is outside.
pub proof fn what_lies_within_is_below(path: Seq<char>, base: Seq<char>)
    requires
        base.len() > 0,
        base.last() != '/',
    ensures
        lies_within(path, base) <==> path == base || (path.len() > base.len() && path.take(
            base.len() as int,
        ) == base && path[base.len() as int] == '/'),
        lies_within(base, base),
{
    let front = under(base, Seq::empty());
    assert(front =~= base.push('/'));
    if begins(path, front) {
        assert(path.take(base.len() as int) =~= front.take(base.len() as int));
        assert(front.take(base.len() as int) =~= base);
        assert(path[base.len() as int] == path.take(front.len() as int)[base.len() as int]);
    }
    if path.len() > base.len() && path.take(base.len() as int) == base && path[base.len() as int]
        == '/' {
        assert(path.take(front.len() as int) =~= front) by {
            assert forall|i: int| 0 <= i < front.len() implies path.take(front.len() as int)[i]
                == front[i] by {
                if i < base.len() {
                    assert(path.take(base.len() as int)[i] == path[i]);
                }
            }
        }
    }
}

/// A path that does not lead out is put below the workspace, and has no step back in
/// it.
pub proof fn a_path_stays_below_the_workspace(raw: Seq<char>, workspace: Seq<char>)
    requires
        !leads_out(raw),
        workspace.len() > 0,
        workspace.last() != '/',
    ensures
        lies_within(under(workspace, raw), workspace),
        forall|i: int|
            0 <= i < split_on(raw, '/').len() ==> #[trigger] split_on(raw, '/')[i] != ".."@,
        !begins(raw, "/"@),
{
    let path = under(workspace, raw);
    assert(path =~= workspace.push('/') + raw);
    let n = workspace.len() as int;
    assert(path.take(n) =~= workspace);
    assert(path[n] == '/');
    what_lies_within_is_below(path, workspace);
}

/// A path is told by what it has below its base, which leads back to it.
pub proof fn a_relative_path_leads_back(path: Seq<char>, base: Seq<char>)
    requires
        base.len() > 0,
        base.last() != '/',
        lies_within(path, base),
    ensures
        path == base || under(base, relative(path, base)) == path,
        path == base ==> relative(path, base).len() == 0,
{
    let front = under(base, Seq::empty());
    assert(front =~= base.push('/'));
    if begins(path, front) {
        let rest = path.skip(front.len() as int);
        assert(base.push('/') + rest =~= path) by {
            assert forall|i: int| 0 <= i < path.len() implies (base.push('/') + rest)[i]
                == path[i] by {
                if i < front.len() {
                    assert(path.take(front.len() as int)[i] == path[i]);
                }
            }
        }
    }
}

/// The languages of some files: each that one of them is written in, once.
pub proof fn each_language_is_found_once(paths: Seq<Seq<char>>)
    ensures
        languages_of(paths).no_duplicates(),
        forall|l: Seq<char>|
            #![trigger languages_of(paths).contains(l)]
            languages_of(paths).contains(l) <==> exists|i: int|
                0 <= i < paths.len() && path_language(#[trigger] paths[i]) == Some(l),
    decreases paths.len(),
{
    if paths.len() > 0 {
        let t = paths.drop_last();
        let before = languages_of(t);
        let out = languages_of(paths);
        each_language_is_found_once(t);
        assert(paths[paths.len() - 1] == paths.last());
        assert forall|l: Seq<char>|
            #![trigger out.contains(l)]
            out.contains(l) <==> exists|i: int|
                0 <= i < paths.len() && path_language(#[trigger] paths[i]) == Some(l) by {
            if out.contains(l) {
                let k = choose|k: int| 0 <= k < out.len() && out[k] == l;
                if k < before.len() {
                    assert(before[k] == l);
                    assert(before.contains(l));
                    let i = choose|i: int|
                        0 <= i < t.len() && path_language(#[trigger] t[i]) == Some(l);
                    assert(paths[i] == t[i]);
                }
            }
            if exists|i: int|
                0 <= i < paths.len() && path_language(#[trigger] paths[i]) == Some(l) {
                let i = choose|i: int|
                    0 <= i < paths.len() && path_language(#[trigger] paths[i]) == Some(l);
                if i < t.len() {
                    assert(t[i] == paths[i]);
                    assert(before.contains(l));
                    let k = choose|k: int| 0 <= k < before.len() && before[k] == l;
                    assert(out[k] == l);
                } else if !before.contains(l) {
                    assert(out[out.len() - 1] == l);
                }
            }
        }
    }
}

/// No place comes before one in front of it.
pub open spec fn places_in_order(list: Seq<PlaceView>) -> bool {
    forall|i: int, j: int|
        0 <= i < j < list.len() ==> !place_before(#[trigger] list[j], #[trigger] list[i])
}

/// Places are shown by file and line, and none is lost or added by that.
pub proof fn places_are_sorted(list: Seq<PlaceView>)
    ensures
        places_in_order(places_ordered(list)),
        places_ordered(list).to_multiset() == list.to_multiset(),
        places_ordered(list).len() == list.len(),
    decreases list.len(),
{
    broadcast use vstd::seq_lib::group_to_multiset_ensures;

    if list.len() > 0 {
        places_are_sorted(list.drop_last());
        lemma_put_place(places_ordered(list.drop_last()), list.last());
        assert(list =~= list.drop_last().push(list.last()));
    }
}

proof fn lemma_place_order(a: PlaceView, b: PlaceView, c: PlaceView)
    ensures
        !place_before(b, a) && !place_before(c, b) ==> !place_before(c, a),
        place_before(a, b) ==> !place_before(b, a),
{
    text_order_is_total(a.path, b.path);
    text_order_is_total(b.path, c.path);
    text_order_is_total(a.path, c.path);
    if !text_before(b.path, a.path) && !text_before(c.path, b.path) {
        text_order_is_transitive(a.path, b.path, c.path);
    }
    if !place_before(b, a) && !place_before(c, b) && c.path == a.path {
        if a.path != b.path {
            assert(text_before(a.path, b.path));
            assert(text_before(b.path, c.path));
        }
    }
}

proof fn lemma_put_place(sorted: Seq<PlaceView>, new: PlaceView)
    requires
        places_in_order(sorted),
    ensures
        places_in_order(put_place(sorted, new)),
        put_place(sorted, new).to_multiset() == sorted.push(new).to_multiset(),
        put_place(sorted, new).len() == sorted.len() + 1,
        forall|i: int|
            0 <= i <= sorted.len() ==> (#[trigger] put_place(sorted, new)[i]) == new
                || sorted.contains(put_place(sorted, new)[i]),
    decreases sorted.len(),
{
    broadcast use vstd::seq_lib::group_to_multiset_ensures;

    let out = put_place(sorted, new);
    if sorted.len() > 0 && place_before(new, sorted.last()) {
        let t = sorted.drop_last();
        assert(places_in_order(t)) by {
            assert forall|i: int, j: int| 0 <= i < j < t.len() implies !place_before(
                #[trigger] t[j],
                #[trigger] t[i],
            ) by {
                assert(t[i] == sorted[i] && t[j] == sorted[j]);
            }
        }
        lemma_put_place(t, new);
        let u = put_place(t, new);
        assert(out == u.push(sorted.last()));
        assert(sorted =~= t.push(sorted.last()));
        assert(out.to_multiset() =~= sorted.push(new).to_multiset());
        assert forall|i: int| 0 <= i <= sorted.len() implies (#[trigger] out[i]) == new
            || sorted.contains(out[i]) by {
            if i < u.len() {
                assert(u[i] == out[i]);
                if u[i] != new {
                    let k = choose|k: int| 0 <= k < t.len() && t[k] == u[i];
                    assert(sorted[k] == out[i]);
                }
            } else {
                assert(sorted[sorted.len() - 1] == out[i]);
            }
        }
        assert forall|i: int, j: int| 0 <= i < j < out.len() implies !place_before(
            #[trigger] out[j],
            #[trigger] out[i],
        ) by {
            if j < u.len() {
                assert(!place_before(u[j], u[i]));
            } else {
                assert(out[i] == u[i]);
                if u[i] == new {
                    lemma_place_order(new, sorted.last(), new);
                } else {
                    let k = choose|k: int| 0 <= k < t.len() && t[k] == u[i];
                    assert(sorted[k] == u[i]);
                    assert(!place_before(sorted[sorted.len() - 1], sorted[k]));
                }
            }
        }
    } else {
        assert forall|i: int| 0 <= i <= sorted.len() implies (#[trigger] out[i]) == new
            || sorted.contains(out[i]) by {
            if i < sorted.len() {
                assert(sorted[i] == out[i]);
            }
        }
        assert forall|i: int, j: int| 0 <= i < j < out.len() implies !place_before(
            #[trigger] out[j],
            #[trigger] out[i],
        ) by {
            if j < sorted.len() {
                assert(!place_before(sorted[j], sorted[i]));
            } else if i < sorted.len() - 1 {
                assert(!place_before(sorted[sorted.len() - 1], sorted[i]));
                lemma_place_order(sorted[i], sorted.last(), new);
            }
        }
    }
}

/// How many bytes the first places take.
pub open spec fn places_bytes(items: Seq<PlaceView>) -> nat
    decreases items.len(),
{
    if items.len() == 0 {
        0
    } else {
        places_bytes(items.drop_last()) + byte_len(items.last().json)
    }
}

/// Of the places that were found the first ones are shown: at least one, at most so
/// many, and more than one only as far as they keep to the limit. One more would be
/// too many or too long.
pub proof fn as_many_places_are_shown_as_fit(items: Seq<PlaceView>)
    ensures
        ({
            let n = shown(items, 0, 0);
            &&& n <= items.len()
            &&& n <= MAX_RESULTS
            &&& items.len() > 0 ==> n > 0
            &&& n > 1 ==> places_bytes(items.take(n as int)) <= MAX_OUTPUT_BYTES
            &&& n < items.len() && n < MAX_RESULTS ==> places_bytes(items.take((n + 1) as int))
                > MAX_OUTPUT_BYTES
        }),
{
    assert(items.take(0) =~= Seq::<PlaceView>::empty());
    lemma_shown(items, 0);
}

proof fn lemma_shown(items: Seq<PlaceView>, i: nat)
    requires
        i <= items.len(),
        i <= MAX_RESULTS,
        i > 1 ==> places_bytes(items.take(i as int)) <= MAX_OUTPUT_BYTES,
    ensures
        ({
            let n = shown(items, i, places_bytes(items.take(i as int)));
            &&& i <= n <= items.len()
            &&& n <= MAX_RESULTS
            &&& items.len() > 0 ==> n > 0
            &&& n > 1 ==> places_bytes(items.take(n as int)) <= MAX_OUTPUT_BYTES
            &&& n < items.len() && n < MAX_RESULTS ==> places_bytes(items.take((n + 1) as int))
                > MAX_OUTPUT_BYTES
        }),
    decreases items.len() - i,
{
    if i < items.len() && i < MAX_RESULTS {
        let next = items.take((i + 1) as int);
        assert(next.drop_last() =~= items.take(i as int));
        assert(next.last() == items[i as int]);
        if !(i > 0 && places_bytes(next) > MAX_OUTPUT_BYTES) {
            lemma_shown(items, i + 1);
        }
    }
}

/// A place is told with its character, its line, its name where it has one, its path
/// and its line of code.
pub proof fn a_place_is_told_whole(
    character: nat,
    line: nat,
    name: Option<Seq<char>>,
    path: Seq<char>,
    snippet: Option<Seq<char>>,
)
    ensures
        stand_in_order(
            place_json(character, line, name, path, snippet),
            seq![decimal(character), decimal(line)] + (match name {
                Some(n) => seq![json_string(n)],
                None => Seq::empty(),
            }) + seq![json_string(path), json_or_null(snippet)],
        ),
{
    let none = Seq::<char>::empty();
    let a = "{\"character\":"@ + decimal(character) + ",\"line\":"@;
    let b = none + decimal(line) + none;
    lemma_within("{\"character\":"@, decimal(character), ",\"line\":"@);
    lemma_within(none, decimal(line), none);
    lemma_both(a, seq![decimal(character)], b, seq![decimal(line)]);
    assert(seq![decimal(character)] + seq![decimal(line)] =~= seq![
        decimal(character),
        decimal(line),
    ]);
    let named = match name {
        Some(n) => ",\"name\":"@ + json_string(n) + none,
        None => none,
    };
    let names = match name {
        Some(n) => seq![json_string(n)],
        None => Seq::<Seq<char>>::empty(),
    };
    match name {
        Some(n) => {
            lemma_within(",\"name\":"@, json_string(n), none);
        },
        None => {
            lemma_none(none);
        },
    }
    lemma_both(a + b, seq![decimal(character), decimal(line)], named, names);
    let c = ",\"path\":"@ + json_string(path) + ",\"snippet\":"@;
    let d = none + json_or_null(snippet) + "}"@;
    lemma_within(",\"path\":"@, json_string(path), ",\"snippet\":"@);
    lemma_within(none, json_or_null(snippet), "}"@);
    lemma_both(c, seq![json_string(path)], d, seq![json_or_null(snippet)]);
    assert(seq![json_string(path)] + seq![json_or_null(snippet)] =~= seq![
        json_string(path),
        json_or_null(snippet),
    ]);
    lemma_both(
        a + b + named,
        seq![decimal(character), decimal(line)] + names,
        c + d,
        seq![json_string(path), json_or_null(snippet)],
    );
    assert(a + b + named + (c + d) =~= place_json(character, line, name, path, snippet));
}

/// Whether the user has to agree is known of exactly the tools that there are. Nothing
/// asks for less than it does under a milder policy, and a tool that only reads is
/// asked about under the strictest policy alone.
pub proof fn agreement_grows_with_the_policy(r: RegistryView, name: Seq<char>)
    ensures
        approval_of(r, name) is Some <==> tool_names(r.tools).contains(name),
        r.mode == ToolApprovalMode::Never ==> approval_of(r, name) != Some(true),
        r.mode == ToolApprovalMode::Always ==> approval_of(r, name) != Some(false),
        forall|k: int|
            0 <= k < r.tools.len() && (#[trigger] r.tools[k]).name == name && tool_names(
                r.tools,
            ).no_duplicates() && r.mode == ToolApprovalMode::Mutating ==> approval_of(r, name)
                == Some(r.tools[k].risk != ToolRisk::ReadOnly),
{
    let names = tool_names(r.tools);
    lemma_slot(names, name);
    assert forall|k: int|
        0 <= k < r.tools.len() && (#[trigger] r.tools[k]).name == name && names.no_duplicates()
            && r.mode == ToolApprovalMode::Mutating implies approval_of(r, name) == Some(
        r.tools[k].risk != ToolRisk::ReadOnly,
    ) by {
        assert(names[k] == name);
        let j = slot_of(names, name);
        assert(names[j] == name);
        assert(j == k);
    }
}

/// The length of a message of a language server is read as it was written.
pub proof fn a_length_is_read_as_it_was_written(n: usize)
    ensures
        header_line("Content-Length: "@ + decimal(n as nat) + "\r\n"@) == Ok::<
            HeaderLine,
            Seq<char>,
        >(HeaderLine::Length(n)),
        header_line("\r\n"@) == Ok::<HeaderLine, Seq<char>>(HeaderLine::End),
{
    reveal_strlit("Content-Length: ");
    reveal_strlit("Content-Length:");
    reveal_strlit("\r\n");
    a_number_is_read_as_it_was_written(n as nat);
    let digits = decimal(n as nat);
    let word = "Content-Length:"@;
    assert(word.len() == 15);
    let text = "Content-Length: "@ + digits;
    let line = text + "\r\n"@;
    assert(line.last() == '\n');
    assert(line.drop_last().last() == '\r');
    assert(line.drop_last().drop_last() =~= text);
    assert(text.last() == digits.last());
    assert('0' <= digits[digits.len() - 1] <= '9');
    reveal_with_fuel(unterminated, 4);
    assert(unterminated(line) == text);
    assert(text.take(15) =~= word);
    let rest = text.skip(15);
    assert(rest[0] == ' ');
    assert(rest.skip(1) =~= digits);
    assert(rest[1] == digits[0]);
    assert('0' <= digits[0] <= '9');
    assert(rest[rest.len() - 1] == digits[digits.len() - 1]);
    lemma_trimmed_is(rest, 1, rest.len() as int);
    assert(rest.subrange(1, rest.len() as int) =~= digits);
    let end = "\r\n"@;
    assert(end.drop_last().drop_last() =~= Seq::<char>::empty());
    assert(end.last() == '\n');
    assert(end.drop_last().last() == '\r');
}

} // verus!
