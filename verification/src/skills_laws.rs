//! What holds of Skills that were read.
use crate::skills::{
    field_of, fields_of, file_text, frontmatter_split, hex, load_outcome, FileView, LoadedView,
    SkillSource,
};
use crate::text::{
    begins, first_place, line_list, occurs_at, stripped, stripped_start, trimmed, whitespace,
};
use crate::text_laws::{stripping_cuts_only_the_end, trimming_cuts_only_space};
use vstd::prelude::*;

verus! {

/// The head and the body of a Skill, with the lines around the head, make up its text;
/// the head is closed by the first line that closes it.
pub proof fn a_skill_is_its_head_and_its_body(source: Seq<char>)
    ensures
        frontmatter_split(source) matches Ok(parts) ==> {
            &&& "---\n"@ + parts.0 + "\n---\n"@ + parts.1 == source
            &&& forall|i: int|
                0 <= i < parts.0.len() ==> !#[trigger] occurs_at(
                    parts.0 + "\n---\n"@ + parts.1,
                    "\n---\n"@,
                    i,
                )
        },
        frontmatter_split(source) is Err <==> !begins(source, "---\n"@) || forall|i: int|
            !#[trigger] occurs_at(source.skip(4), "\n---\n"@, i),
{
    reveal_strlit("---\n");
    reveal_strlit("\n---\n");
    let open = "---\n"@;
    let close = "\n---\n"@;
    assert(open.len() == 4);
    assert(close.len() == 5);
    if begins(source, open) {
        let rest = source.skip(4);
        let end = first_place(rest, close, 0);
        lemma_place_found(rest, close, 0);
        assert(open + rest =~= source) by {
            assert(source.take(4) =~= open);
        }
        if end < rest.len() {
            assert(occurs_at(rest, close, end));
            let front = rest.take(end);
            let body = rest.skip(end + 5);
            assert(front + close + body =~= rest) by {
                assert(rest.subrange(end, end + 5) =~= close);
                assert forall|i: int| 0 <= i < rest.len() implies (front + close + body)[i]
                    == rest[i] by {
                    if end <= i < end + 5 {
                        assert(rest.subrange(end, end + 5)[i - end] == rest[i]);
                    }
                }
            }
            assert(open + front + close + body =~= open + (front + close + body));
        }
    }
}

proof fn lemma_place_found(s: Seq<char>, needle: Seq<char>, from: int)
    requires
        0 <= from,
        needle.len() > 0,
    ensures
        ({
            let k = first_place(s, needle, from);
            &&& k < s.len() ==> occurs_at(s, needle, k) && from <= k
            &&& forall|i: int| from <= i < k ==> !#[trigger] occurs_at(s, needle, i)
            &&& k >= s.len() ==> k == s.len() && forall|i: int|
                from <= i ==> !#[trigger] occurs_at(s, needle, i)
        }),
    decreases s.len() + 1 - from,
{
    if from + needle.len() <= s.len() && !occurs_at(s, needle, from) {
        lemma_place_found(s, needle, from + 1);
    }
}

/// A line of the head is cut at its first colon: the key is what stands before it,
/// without space around it, and the value stands behind it.
pub proof fn a_line_is_cut_at_its_first_colon(line: Seq<char>)
    ensures
        field_of(line) matches Ok(field) ==> exists|p: int|
            {
                &&& 0 <= p < line.len()
                &&& line[p] == ':'
                &&& !#[trigger] line.take(p).contains(':')
                &&& field.0 == trimmed(line.take(p))
                &&& field.0.len() > 0
                &&& exists|q: int| #[trigger] occurs_at(line.skip(p + 1), field.1, q)
            },
        field_of(line) is Err <==> !line.contains(':') || exists|p: int|
            0 <= p < line.len() && line[p] == ':' && !#[trigger] line.take(p).contains(':')
                && trimmed(line.take(p)).len() == 0,
{
    reveal_strlit(":");
    let colon = ":"@;
    assert(colon =~= seq![':']);
    let p = first_place(line, colon, 0);
    lemma_place_found(line, colon, 0);
    assert forall|i: int| 0 <= i < line.len() implies (#[trigger] line[i] == ':' <==> occurs_at(
        line,
        colon,
        i,
    )) by {
        assert(line.subrange(i, i + 1) =~= seq![line[i]]);
        if line.subrange(i, i + 1) == colon {
            assert(seq![line[i]][0] == colon[0]);
        }
    }
    if p < line.len() {
        assert(line[p] == ':');
        assert(!line.take(p).contains(':')) by {
            if line.take(p).contains(':') {
                let i = choose|i: int| 0 <= i < p && line.take(p)[i] == ':';
                assert(line[i] == ':');
            }
        }
        let rest = line.skip(p + 1);
        let a = lemma_trimmed_within(rest);
        let t = trimmed(rest);
        let b = lemma_stripped_within(t, '"');
        let u = stripped(t, '"');
        let c = lemma_stripped_within(u, '\'');
        lemma_within_within(rest, t, u, a, b);
        lemma_within_within(rest, u, stripped(u, '\''), a + b, c);
        assert(occurs_at(line.skip(p + 1), stripped(u, '\''), a + b + c));
        if field_of(line) is Ok {
            let field = field_of(line)->Ok_0;
            assert(field.1 == stripped(u, '\''));
            assert(field.0 == trimmed(line.take(p)));
            assert(exists|q: int| #[trigger] occurs_at(line.skip(p + 1), field.1, q));
        }
        assert forall|k: int|
            0 <= k < line.len() && line[k] == ':' && !#[trigger] line.take(k).contains(
                ':',
            ) implies k == p by {
            if k > p {
                assert(line.take(k)[p] == ':');
            }
            if k < p {
                assert(occurs_at(line, colon, k));
            }
        }
    } else {
        if line.contains(':') {
            let i = choose|i: int| 0 <= i < line.len() && line[i] == ':';
            assert(occurs_at(line, colon, i));
        }
    }
}

proof fn lemma_within_within(s: Seq<char>, t: Seq<char>, u: Seq<char>, i: int, j: int)
    requires
        occurs_at(s, t, i),
        occurs_at(t, u, j),
    ensures
        occurs_at(s, u, i + j),
{
    assert(s.subrange(i + j, i + j + u.len()) =~= u) by {
        assert forall|k: int| 0 <= k < u.len() implies s.subrange(i + j, i + j + u.len())[k]
            == u[k] by {
            assert(t.subrange(j, j + u.len())[k] == t[j + k]);
            assert(s.subrange(i, i + t.len())[j + k] == s[i + j + k]);
        }
    }
}

proof fn lemma_trimmed_within(s: Seq<char>) -> (a: int)
    ensures
        occurs_at(s, trimmed(s), a),
{
    trimming_cuts_only_space(s);
    let (a, b) = choose|a: int, b: int|
        {
            &&& 0 <= a <= b <= s.len()
            &&& trimmed(s) == #[trigger] s.subrange(a, b)
            &&& forall|i: int| 0 <= i < a ==> whitespace(#[trigger] s[i])
            &&& forall|i: int| b <= i < s.len() ==> whitespace(#[trigger] s[i])
        };
    a
}

proof fn lemma_stripped_within(s: Seq<char>, c: char) -> (a: int)
    ensures
        occurs_at(s, stripped(s, c), a),
{
    lemma_stripped_front(s, c);
    let t = stripped_start(s, c);
    stripping_cuts_only_the_end(t, c);
    let a = s.len() - t.len();
    let u = stripped(s, c);
    assert(s.subrange(a, a + u.len()) =~= u);
    a
}

proof fn lemma_stripped_front(s: Seq<char>, c: char)
    ensures
        stripped_start(s, c).len() <= s.len(),
        stripped_start(s, c) == s.skip(s.len() - stripped_start(s, c).len()),
    decreases s.len(),
{
    if s.len() > 0 && s[0] == c {
        let t = s.drop_first();
        lemma_stripped_front(t, c);
        let r = stripped_start(t, c);
        assert(s.skip(s.len() - r.len()) =~= t.skip(t.len() - r.len()));
    } else {
        assert(s.skip(0) =~= s);
    }
}

/// Every line of the head gives a key and a value. The value is kept under the key, and
/// no key is given twice.
pub proof fn a_field_is_what_its_line_says(lines: Seq<Seq<char>>)
    ensures
        fields_of(lines) matches Ok(fields) ==> {
            &&& forall|i: int|
                0 <= i < lines.len() ==> {
                    &&& field_of(#[trigger] lines[i]) matches Ok(field)
                    &&& fields.dom().contains(field.0)
                    &&& fields[field.0] == field.1
                }
            &&& forall|key: Seq<char>|
                #![trigger fields.dom().contains(key)]
                fields.dom().contains(key) ==> exists|i: int|
                    0 <= i < lines.len() && field_of(#[trigger] lines[i]) is Ok && field_of(
                        lines[i],
                    )->Ok_0.0 == key
            &&& forall|i: int, j: int|
                0 <= i < j < lines.len() ==> field_of(#[trigger] lines[i])->Ok_0.0 != field_of(
                    #[trigger] lines[j],
                )->Ok_0.0
        },
    decreases lines.len(),
{
    if lines.len() > 0 {
        let t = lines.drop_last();
        a_field_is_what_its_line_says(t);
        if fields_of(lines) is Ok {
            let fields = fields_of(lines)->Ok_0;
            let before = fields_of(t)->Ok_0;
            let n = lines.len() - 1;
            assert(lines[n] == lines.last());
            assert forall|i: int| 0 <= i < lines.len() implies {
                &&& field_of(#[trigger] lines[i]) matches Ok(field)
                &&& fields.dom().contains(field.0)
                &&& fields[field.0] == field.1
            } by {
                if i < n {
                    assert(t[i] == lines[i]);
                }
            }
            assert forall|key: Seq<char>|
                #![trigger fields.dom().contains(key)]
                fields.dom().contains(key) implies exists|i: int|
                0 <= i < lines.len() && field_of(#[trigger] lines[i]) is Ok && field_of(
                    lines[i],
                )->Ok_0.0 == key by {
                if before.dom().contains(key) {
                    let i = choose|i: int|
                        0 <= i < t.len() && field_of(#[trigger] t[i]) is Ok && field_of(
                            t[i],
                        )->Ok_0.0 == key;
                    assert(lines[i] == t[i]);
                } else {
                    assert(field_of(lines[n])->Ok_0.0 == key);
                }
            }
            assert forall|i: int, j: int| 0 <= i < j < lines.len() implies field_of(
                #[trigger] lines[i],
            )->Ok_0.0 != field_of(#[trigger] lines[j])->Ok_0.0 by {
                assert(t[i] == lines[i]);
                if j < n {
                    assert(t[j] == lines[j]);
                }
            }
        }
    }
}

/// A Skill that was loaded has the name of its directory, which its head names too; it
/// has the description of its head, and its body is what stands behind the head,
/// without space around it.
pub proof fn a_loaded_skill_is_what_its_file_says(
    root: Seq<char>,
    file: FileView,
    directory: Seq<char>,
    source: SkillSource,
    skill: LoadedView,
)
    requires
        load_outcome(root, file, directory, source, Some(skill), None),
    ensures
        ({
            let text = file_text(file);
            &&& frontmatter_split(text) matches Ok(parts)
            &&& fields_of(line_list(parts.0)) matches Ok(fields)
            &&& skill.info.name == directory
            &&& fields["name"@] == directory
            &&& skill.info.description == fields["description"@]
            &&& skill.info.description.len() > 0
            &&& skill.info.source == source
            &&& skill.body == trimmed(parts.1)
            &&& skill.info.disable_model_invocation <==> fields.dom().contains(
                "disable-model-invocation"@,
            ) && fields["disable-model-invocation"@] == "true"@
        }),
{
    reveal_strlit("true");
    reveal_strlit("false");
    assert("true"@.len() == 4);
    assert("false"@.len() == 5);
}

/// A digest has as many digits as it shall have.
pub proof fn a_digest_has_its_length(value: u64, n: nat)
    ensures
        hex(value, n).len() == n,
    decreases n,
{
    if n > 0 {
        a_digest_has_its_length(value / 16, (n - 1) as nat);
    }
}

} // verus!
