//! Pieces that stand in a text, one behind the other.
use crate::text::{joined, occurs_at};
use vstd::prelude::*;

verus! {

/// Pieces stand in a text at some places, one behind the other.
pub open spec fn stand_at(text: Seq<char>, pieces: Seq<Seq<char>>, places: Seq<int>) -> bool {
    &&& places.len() == pieces.len()
    &&& forall|i: int|
        0 <= i < pieces.len() ==> occurs_at(text, #[trigger] pieces[i], places[i])
    &&& forall|i: int, j: int|
        0 <= i < j < pieces.len() ==> (#[trigger] places[i]) + pieces[i].len() <= (
        #[trigger] places[j])
}

/// Pieces stand in a text, one behind the other.
pub open spec fn stand_in_order(text: Seq<char>, pieces: Seq<Seq<char>>) -> bool {
    exists|places: Seq<int>| stand_at(text, pieces, places)
}

/// What stands in two texts stands in both together.
pub proof fn lemma_both(a: Seq<char>, p: Seq<Seq<char>>, b: Seq<char>, q: Seq<Seq<char>>)
    requires
        stand_in_order(a, p),
        stand_in_order(b, q),
    ensures
        stand_in_order(a + b, p + q),
{
    let at = choose|places: Seq<int>| stand_at(a, p, places);
    let bt = choose|places: Seq<int>| stand_at(b, q, places);
    let places = Seq::new(
        p.len() + q.len(),
        |i: int|
            if i < p.len() {
                at[i]
            } else {
                a.len() + bt[i - p.len()]
            },
    );
    let all = p + q;
    let text = a + b;
    assert forall|i: int| 0 <= i < all.len() implies occurs_at(text, #[trigger] all[i], places[i]) by {
        if i < p.len() {
            assert(occurs_at(a, p[i], at[i]));
            assert(text.subrange(at[i], at[i] + p[i].len()) =~= a.subrange(
                at[i],
                at[i] + p[i].len(),
            ));
        } else {
            let j = i - p.len();
            assert(occurs_at(b, q[j], bt[j]));
            assert(text.subrange(a.len() + bt[j], a.len() + bt[j] + q[j].len()) =~= b.subrange(
                bt[j],
                bt[j] + q[j].len(),
            ));
        }
    }
    assert forall|i: int, j: int| 0 <= i < j < all.len() implies (#[trigger] places[i])
        + all[i].len() <= (#[trigger] places[j]) by {
        if i < p.len() {
            assert(occurs_at(a, p[i], at[i]));
        }
        if j >= p.len() {
            assert(occurs_at(b, q[j - p.len()], bt[j - p.len()]));
        }
        if j < p.len() {
            assert(at[i] + p[i].len() <= at[j]);
        } else if i >= p.len() {
            assert(bt[i - p.len()] + q[i - p.len()].len() <= bt[j - p.len()]);
        }
    }
    assert(stand_at(text, all, places));
}

/// Nothing stands in every text.
pub proof fn lemma_none(text: Seq<char>)
    ensures
        stand_in_order(text, Seq::empty()),
{
    assert(stand_at(text, Seq::empty(), Seq::empty()));
}

/// A piece stands between what is before it and behind it.
pub proof fn lemma_within(before: Seq<char>, piece: Seq<char>, behind: Seq<char>)
    ensures
        stand_in_order(before + piece + behind, seq![piece]),
{
    let text = before + piece + behind;
    let at = before.len() as int;
    assert(text.subrange(at, at + piece.len()) =~= piece);
    assert(stand_at(text, seq![piece], seq![at]));
}

/// What stands in a text stands in a longer one.
pub proof fn lemma_more(text: Seq<char>, pieces: Seq<Seq<char>>, more: Seq<char>)
    requires
        stand_in_order(text, pieces),
    ensures
        stand_in_order(text + more, pieces),
{
    lemma_none(more);
    lemma_both(text, pieces, more, Seq::empty());
    assert(pieces + Seq::<Seq<char>>::empty() =~= pieces);
}

/// A piece stands in itself.
pub proof fn lemma_itself(piece: Seq<char>)
    ensures
        stand_in_order(piece, seq![piece]),
{
    let none = Seq::<char>::empty();
    lemma_within(none, piece, none);
    assert(none + piece + none =~= piece);
}

/// What stands in a text stands in it behind others.
pub proof fn lemma_behind(before: Seq<char>, text: Seq<char>, pieces: Seq<Seq<char>>)
    requires
        stand_in_order(text, pieces),
    ensures
        stand_in_order(before + text, pieces),
{
    lemma_none(before);
    lemma_both(before, Seq::empty(), text, pieces);
    assert(Seq::<Seq<char>>::empty() + pieces =~= pieces);
}

/// Texts that were joined stand in the whole, in order.
pub proof fn joined_parts_stand_in_order(parts: Seq<Seq<char>>, sep: Seq<char>)
    ensures
        stand_in_order(joined(parts, sep), parts),
    decreases parts.len(),
{
    if parts.len() == 0 {
        lemma_none(joined(parts, sep));
        assert(parts =~= Seq::<Seq<char>>::empty());
    } else if parts.len() == 1 {
        lemma_itself(parts[0]);
        assert(parts =~= seq![parts[0]]);
    } else {
        let t = parts.drop_last();
        joined_parts_stand_in_order(t, sep);
        lemma_more(joined(t, sep), t, sep);
        lemma_itself(parts.last());
        lemma_both(joined(t, sep) + sep, t, parts.last(), seq![parts.last()]);
        assert(t + seq![parts.last()] =~= parts);
    }
}

} // verus!
