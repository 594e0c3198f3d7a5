//! Reading files in pages, and keeping paths inside the workspace.
use crate::error::{fail, fail_with, Error};
use crate::paths::{join_path, under};
use crate::text::{
    begins, chars_of, lemma_texts_push, same, split, split_on, starts_with, texts,
};
use vstd::prelude::*;

verus! {

/// The lines of a text, each with the newline that ends it.
pub open spec fn pieces(s: Seq<char>) -> Seq<Seq<char>>
    decreases s.len(),
{
    if s.len() == 0 {
        Seq::empty()
    } else {
        let before = pieces(s.drop_last());
        if s.len() == 1 || s[s.len() - 2] == '\n' {
            before.push(seq![s.last()])
        } else {
            before.drop_last().push(before.last().push(s.last()))
        }
    }
}

/// The pieces in a row.
pub open spec fn concatenated(parts: Seq<Seq<char>>) -> Seq<char>
    decreases parts.len(),
{
    if parts.len() == 0 {
        Seq::empty()
    } else {
        concatenated(parts.drop_last()) + parts.last()
    }
}

/// The lines of a text in a row are the text.
pub proof fn pieces_make_up_the_text(s: Seq<char>)
    ensures
        concatenated(pieces(s)) == s,
        s.len() > 0 ==> pieces(s).len() > 0,
    decreases s.len(),
{
    if s.len() > 0 {
        let t = s.drop_last();
        pieces_make_up_the_text(t);
        let before = pieces(t);
        if s.len() == 1 || s[s.len() - 2] == '\n' {
            assert(before.push(seq![s.last()]).drop_last() =~= before);
            assert(t + seq![s.last()] =~= s);
        } else {
            let grown = before.last().push(s.last());
            let out = before.drop_last().push(grown);
            assert(out.drop_last() =~= before.drop_last());
            assert(concatenated(before.drop_last()) + grown =~= t.push(s.last()));
            assert(t.push(s.last()) =~= s);
        }
    }
}

fn split_pieces(text: &str) -> (r: Vec<String>)
    ensures
        texts(r@) == pieces(text@),
{
    let chars = chars_of(text);
    let mut out: Vec<String> = Vec::new();
    let mut current = String::new();
    let mut i: usize = 0;
    assert(chars@.take(0) =~= Seq::<char>::empty());
    assert(texts(out@) =~= Seq::<Seq<char>>::empty());
    while i < chars.len()
        invariant
            i <= chars.len(),
            if i == 0 || chars@[i - 1] == '\n' {
                current@.len() == 0 && texts(out@) == pieces(chars@.take(i as int))
            } else {
                texts(out@).push(current@) == pieces(chars@.take(i as int))
            },
        decreases chars.len() - i,
    {
        let c = chars[i];
        proof {
            let now = chars@.take(i + 1);
            assert(now.drop_last() =~= chars@.take(i as int));
            assert(now.last() == c);
            assert(i > 0 ==> now[now.len() - 2] == chars@[i - 1]);
            assert(texts(out@).push(current@).drop_last() =~= texts(out@));
            assert(current@.len() == 0 ==> current@.push(c) =~= seq![c]);
        }
        current.push(c);
        if c == '\n' {
            proof {
                lemma_texts_push(out@, current);
            }
            out.push(current);
            current = String::new();
        }
        i += 1;
    }
    assert(chars@.take(i as int) =~= text@);
    if chars.len() > 0 && chars[chars.len() - 1] != '\n' {
        proof {
            lemma_texts_push(out@, current);
        }
        out.push(current);
    }
    out
}

/// A page of a file.
#[derive(Debug)]
pub struct LineRange {
    pub content: String,
    pub offset: usize,
    pub returned_lines: usize,
    pub total_lines: usize,
    pub truncated: bool,
    pub next_offset: Option<usize>,
}

/// Where a page begins.
pub open spec fn page_start(total: int, offset: int) -> int {
    if offset < total {
        offset
    } else {
        total
    }
}

/// Where a page ends.
pub open spec fn page_end(total: int, offset: int, limit: Option<usize>) -> int {
    match limit {
        Some(n) => if page_start(total, offset) + n < total {
            page_start(total, offset) + n
        } else {
            total
        },
        None => total,
    }
}

/// The lines of a file from `offset` on, at most `limit` of them.
pub fn read_range(content: &str, offset: usize, limit: Option<usize>) -> (r: Result<
    LineRange,
    Error,
>)
    ensures
        if limit == Some(0usize) {
            r matches Err(e) && e@ == "limit must be greater than zero"@
        } else {
            r matches Ok(page) && {
                let lines = pieces(content@);
                let total = lines.len() as int;
                let start = page_start(total, offset as int);
                let end = page_end(total, offset as int, limit);
                &&& page.content@ == concatenated(lines.subrange(start, end))
                &&& page.offset == start
                &&& page.returned_lines == end - start
                &&& page.total_lines == total
                &&& page.truncated == (start > 0 || end < total)
                &&& page.next_offset == (if end < total {
                    Some(end as usize)
                } else {
                    None
                })
            }
        },
        offset == 0 && limit is None ==> (r matches Ok(page) && page.content@ == content@
            && !page.truncated && page.next_offset is None),
{
    if let Some(n) = limit {
        if n == 0 {
            return Err(fail("limit must be greater than zero"));
        }
    }
    let lines = split_pieces(content);
    let ghost all = texts(lines@);
    let total: usize = lines.len();
    let start: usize = if offset < total {
        offset
    } else {
        total
    };
    let end: usize = match limit {
        Some(n) => if n < total - start {
            start + n
        } else {
            total
        },
        None => total,
    };
    let mut out = String::new();
    let mut i: usize = start;
    assert(concatenated(all.subrange(start as int, start as int)) =~= Seq::<char>::empty());
    while i < end
        invariant
            start <= i <= end <= total,
            total == lines.len(),
            all == texts(lines@),
            out@ == concatenated(all.subrange(start as int, i as int)),
        decreases end - i,
    {
        out.append(lines[i].as_str());
        i += 1;
        proof {
            let now = all.subrange(start as int, i as int);
            assert(now.drop_last() =~= all.subrange(start as int, i - 1));
            assert(now.last() == lines@[i - 1]@);
        }
    }
    proof {
        if offset == 0 && limit is None {
            pieces_make_up_the_text(content@);
            assert(all.subrange(0, total as int) =~= all);
        }
    }
    Ok(
        LineRange {
            content: out,
            offset: start,
            returned_lines: end - start,
            total_lines: total,
            truncated: start > 0 || end < total,
            next_offset: if end < total {
                Some(end)
            } else {
                None
            },
        },
    )
}

/// Whether a relative path could lead out of where it starts: it is absolute, or
/// one of its parts is `..`.
pub open spec fn leads_out(raw: Seq<char>) -> bool {
    begins(raw, "/"@) || split_on(raw, '/').contains(".."@)
}

/// The path of a file in the workspace, by its relative path.
pub fn workspace_path(workspace: &str, raw: &str) -> (r: Result<String, Error>)
    ensures
        if leads_out(raw@) {
            r matches Err(e) && e@ == "path is outside workspace: "@ + raw@
        } else {
            r matches Ok(path) && path@ == under(workspace@, raw@)
        },
{
    if starts_with(raw, "/") {
        return Err(fail_with("path is outside workspace: ", raw));
    }
    let parts = split(raw, '/');
    let mut i: usize = 0;
    while i < parts.len()
        invariant
            i <= parts.len(),
            texts(parts@) == split_on(raw@, '/'),
            forall|j: int| 0 <= j < i ==> #[trigger] texts(parts@)[j] != ".."@,
        decreases parts.len() - i,
    {
        if same(parts[i].as_str(), "..") {
            assert(texts(parts@)[i as int] == ".."@);
            return Err(fail_with("path is outside workspace: ", raw));
        }
        i += 1;
    }
    Ok(join_path(workspace, raw))
}

/// `path` is `base`, or lies under it; both are absolute and canonical.
pub open spec fn lies_within(path: Seq<char>, base: Seq<char>) -> bool {
    path == base || begins(path, under(base, Seq::empty()))
}

/// Whether a path lies in a directory.
pub fn is_within(path: &str, base: &str) -> (r: bool)
    ensures
        r == lies_within(path@, base@),
{
    proof {
        reveal_strlit("");
        assert(""@ =~= Seq::<char>::empty());
    }
    same(path, base) || starts_with(path, join_path(base, "").as_str())
}

/// Checks that what a path really leads to lies in the workspace.
pub fn check_within(resolved: &str, workspace: &str, raw: &str) -> (r: Result<(), Error>)
    ensures
        if lies_within(resolved@, workspace@) {
            r is Ok
        } else {
            r matches Err(e) && e@ == "path is outside workspace: "@ + raw@
        },
{
    if is_within(resolved, workspace) {
        Ok(())
    } else {
        Err(fail_with("path is outside workspace: ", raw))
    }
}

/// The arguments of `git` that show a difference.
pub fn git_diff_arguments(staged: bool, path: Option<String>) -> (r: Vec<String>)
    ensures
        texts(r@) == seq!["diff"@, "--no-ext-diff"@] + (if staged {
            seq!["--cached"@]
        } else {
            Seq::empty()
        }) + seq!["--"@] + (match path {
            Some(p) => seq![p@],
            None => Seq::empty(),
        }),
{
    let mut out: Vec<String> = Vec::new();
    out.push("diff".to_owned());
    out.push("--no-ext-diff".to_owned());
    if staged {
        out.push("--cached".to_owned());
    }
    out.push("--".to_owned());
    let ghost given = path;
    if let Some(p) = path {
        out.push(p);
    }
    assert(texts(out@) =~= seq!["diff"@, "--no-ext-diff"@] + (if staged {
        seq!["--cached"@]
    } else {
        Seq::empty()
    }) + seq!["--"@] + (match given {
        Some(p) => seq![p@],
        None => Seq::empty(),
    }));
    out
}

} // verus!
