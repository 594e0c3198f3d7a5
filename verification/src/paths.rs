//! Paths as texts, with `/` between their parts.
use crate::text::{chars_of, lemma_texts_push, same, split, split_on, texts};
use vstd::prelude::*;

verus! {

/// The path of `name`, a relative path, under `base`.
pub open spec fn under(base: Seq<char>, name: Seq<char>) -> Seq<char> {
    if base.len() == 0 {
        name
    } else if base.last() == '/' {
        base + name
    } else {
        base.push('/') + name
    }
}

/// The path of `name`, a relative path, under `base`.
pub fn join_path(base: &str, name: &str) -> (r: String)
    ensures
        r@ == under(base@, name@),
{
    let chars = chars_of(base);
    let mut out: String = base.to_owned();
    if chars.len() > 0 && chars[chars.len() - 1] != '/' {
        out.push('/');
    }
    out.append(name);
    assert(out@ =~= under(base@, name@));
    out
}

/// The path begins at the root.
pub open spec fn is_rooted(path: Seq<char>) -> bool {
    path.len() > 0 && path[0] == '/'
}

/// The pieces between slashes that count: not the empty ones, and a lone dot
/// only at the beginning.
pub open spec fn that_count(pieces: Seq<Seq<char>>) -> Seq<Seq<char>>
    decreases pieces.len(),
{
    if pieces.len() == 0 {
        Seq::empty()
    } else {
        let before = that_count(pieces.drop_last());
        let last = pieces.last();
        if last.len() == 0 || (last == "."@ && pieces.len() > 1) {
            before
        } else {
            before.push(last)
        }
    }
}

/// The components of a path.
pub open spec fn components(path: Seq<char>) -> Seq<Seq<char>> {
    that_count(split_on(path, '/'))
}

/// What a path names: whether it begins at the root, and its components.
/// Repeated slashes, slashes at the end and dots between slashes do not count.
pub open spec fn place(path: Seq<char>) -> (bool, Seq<Seq<char>>) {
    (is_rooted(path), components(path))
}

/// Two paths name the same place.
pub open spec fn same_path(a: Seq<char>, b: Seq<char>) -> bool {
    place(a) == place(b)
}

/// Whether a path begins at the root.
fn starts_at_root(path: &str) -> (r: bool)
    ensures
        r == is_rooted(path@),
{
    let chars = chars_of(path);
    chars.len() > 0 && chars[0] == '/'
}

/// The components of a path.
fn components_of(path: &str) -> (r: Vec<String>)
    ensures
        texts(r@) == components(path@),
{
    let pieces = split(path, '/');
    let ghost all = texts(pieces@);
    let mut out: Vec<String> = Vec::new();
    let mut i: usize = 0;
    assert(texts(out@) =~= that_count(all.take(0)));
    while i < pieces.len()
        invariant
            i <= pieces.len(),
            all == texts(pieces@),
            texts(out@) == that_count(all.take(i as int)),
        decreases pieces.len() - i,
    {
        let piece = &pieces[i];
        proof {
            let now = all.take(i + 1);
            assert(now.drop_last() =~= all.take(i as int));
            assert(now.last() == piece@);
        }
        if !piece.as_str().is_empty() && !(i > 0 && same(piece.as_str(), ".")) {
            let copy = piece.clone();
            proof {
                lemma_texts_push(out@, copy);
            }
            out.push(copy);
        }
        i += 1;
    }
    assert(all.take(i as int) =~= all);
    out
}

/// Whether two paths have the same components.
pub fn is_same_path(a: &str, b: &str) -> (r: bool)
    ensures
        r == same_path(a@, b@),
{
    if starts_at_root(a) != starts_at_root(b) {
        return false;
    }
    let x = components_of(a);
    let y = components_of(b);
    if x.len() != y.len() {
        assert(texts(x@).len() != texts(y@).len());
        return false;
    }
    let mut i: usize = 0;
    while i < x.len()
        invariant
            i <= x.len(),
            x.len() == y.len(),
            texts(x@) == components(a@),
            texts(y@) == components(b@),
            forall|j: int| 0 <= j < i ==> #[trigger] texts(x@)[j] == texts(y@)[j],
        decreases x.len() - i,
    {
        if !same(x[i].as_str(), y[i].as_str()) {
            assert(texts(x@)[i as int] != texts(y@)[i as int]);
            return false;
        }
        i += 1;
    }
    assert(texts(x@) =~= texts(y@));
    true
}

} // verus!
