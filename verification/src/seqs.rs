//! Where a value first stands in a sequence.
use vstd::prelude::*;

verus! {

/// The first position of `x` in `s`; the length of `s` where it is not there.
pub open spec fn slot_of<A>(s: Seq<A>, x: A) -> int
    decreases s.len(),
{
    if s.len() == 0 {
        0
    } else {
        let k = slot_of(s.drop_last(), x);
        if k < s.len() - 1 || s.last() == x {
            k
        } else {
            s.len() as int
        }
    }
}

/// `slot_of` points at the value, and nothing before that position is it.
pub proof fn lemma_slot<A>(s: Seq<A>, x: A)
    ensures
        0 <= slot_of(s, x) <= s.len(),
        slot_of(s, x) < s.len() ==> s[slot_of(s, x)] == x,
        forall|j: int| 0 <= j < slot_of(s, x) ==> s[j] != x,
        slot_of(s, x) < s.len() <==> s.contains(x),
    decreases s.len(),
{
    if s.len() > 0 {
        let t = s.drop_last();
        lemma_slot(t, x);
        assert forall|j: int| 0 <= j < slot_of(s, x) implies s[j] != x by {
            if j < t.len() {
                assert(t[j] == s[j]);
            }
        }
        if slot_of(t, x) < t.len() {
            assert(s[slot_of(t, x)] == t[slot_of(t, x)]);
        }
    }
    if s.contains(x) {
        let i = choose|i: int| 0 <= i < s.len() && s[i] == x;
        assert(slot_of(s, x) <= i);
    }
}

/// The first position is the only one with that property.
pub proof fn lemma_slot_is<A>(s: Seq<A>, x: A, k: int)
    requires
        0 <= k <= s.len(),
        k < s.len() ==> s[k] == x,
        forall|j: int| 0 <= j < k ==> s[j] != x,
    ensures
        slot_of(s, x) == k,
{
    lemma_slot(s, x);
}

/// Appending does not move a position that was already found.
pub proof fn lemma_slot_push<A>(s: Seq<A>, y: A, x: A)
    ensures
        slot_of(s, x) < s.len() ==> slot_of(s.push(y), x) == slot_of(s, x),
        slot_of(s, x) == s.len() ==> slot_of(s.push(y), x) == (if y == x {
            s.len() as int
        } else {
            (s.len() + 1) as int
        }),
{
    lemma_slot(s, x);
    assert(s.push(y).drop_last() =~= s);
}

/// Where a property fails before a position and holds from it on, filtering by
/// it keeps the tail.
pub proof fn lemma_filter_tail<A>(s: Seq<A>, keep: spec_fn(A) -> bool, k: int)
    requires
        0 <= k <= s.len(),
        forall|i: int| 0 <= i < k ==> !keep(#[trigger] s[i]),
        forall|i: int| k <= i < s.len() ==> keep(#[trigger] s[i]),
    ensures
        s.filter(keep) == s.skip(k),
    decreases s.len(),
{
    reveal(Seq::filter);
    if s.len() == 0 {
        assert(s.filter(keep) =~= s.skip(k));
    } else {
        let t = s.drop_last();
        let j = if k < s.len() {
            k
        } else {
            k - 1
        };
        assert forall|i: int| 0 <= i < j implies !keep(#[trigger] t[i]) by {
            assert(t[i] == s[i]);
        }
        assert forall|i: int| j <= i < t.len() implies keep(#[trigger] t[i]) by {
            assert(t[i] == s[i]);
        }
        lemma_filter_tail(t, keep, j);
        assert(s.last() == s[s.len() - 1]);
        if k < s.len() {
            assert(keep(s.last()));
            assert(t.skip(k).push(s.last()) =~= s.skip(k));
        } else {
            assert(!keep(s.last()));
            assert(t.skip(j) =~= s.skip(k));
        }
    }
}

/// What is filtered keeps its order.
pub proof fn lemma_filter_order<A>(s: Seq<A>, keep: spec_fn(A) -> bool, before: spec_fn(A, A) -> bool)
    requires
        forall|i: int, j: int| 0 <= i < j < s.len() ==> before(#[trigger] s[i], #[trigger] s[j]),
    ensures
        forall|i: int, j: int|
            0 <= i < j < s.filter(keep).len() ==> before(
                #[trigger] s.filter(keep)[i],
                #[trigger] s.filter(keep)[j],
            ),
        forall|i: int|
            0 <= i < s.filter(keep).len() ==> s.contains(#[trigger] s.filter(keep)[i]) && keep(
                s.filter(keep)[i],
            ),
    decreases s.len(),
{
    reveal(Seq::filter);
    if s.len() > 0 {
        let t = s.drop_last();
        assert forall|i: int, j: int| 0 <= i < j < t.len() implies before(
            #[trigger] t[i],
            #[trigger] t[j],
        ) by {
            assert(t[i] == s[i] && t[j] == s[j]);
        }
        lemma_filter_order(t, keep, before);
        let f = s.filter(keep);
        let g = t.filter(keep);
        assert forall|i: int| 0 <= i < f.len() implies s.contains(#[trigger] f[i]) && keep(f[i]) by {
            if i < g.len() {
                assert(f[i] == g[i]);
                assert(t.contains(g[i]));
                let n = choose|n: int| 0 <= n < t.len() && t[n] == g[i];
                assert(s[n] == f[i]);
            } else {
                assert(f[i] == s[s.len() - 1]);
            }
        }
        assert forall|i: int, j: int| 0 <= i < j < f.len() implies before(
            #[trigger] f[i],
            #[trigger] f[j],
        ) by {
            assert(f[i] == g[i]);
            if j < g.len() {
                assert(f[j] == g[j]);
            } else {
                assert(t.contains(g[i]));
                let n = choose|n: int| 0 <= n < t.len() && t[n] == g[i];
                assert(s[n] == g[i]);
                assert(f[j] == s[s.len() - 1]);
                assert(before(s[n], s[s.len() - 1]));
            }
        }
    }
}

/// A list holds the items at some places of another, in the order of the places.
pub open spec fn picked<A>(from: Seq<A>, to: Seq<A>, places: Seq<int>) -> bool {
    &&& places.len() == to.len()
    &&& forall|i: int|
        0 <= i < to.len() ==> 0 <= #[trigger] places[i] < from.len() && to[i] == from[places[i]]
    &&& forall|i: int, j: int|
        0 <= i < j < places.len() ==> (#[trigger] places[i]) < (#[trigger] places[j])
}

/// A filter picks the items that pass it, all of them.
pub proof fn lemma_filter_picks<A>(s: Seq<A>, pass: spec_fn(A) -> bool) -> (places: Seq<int>)
    ensures
        picked(s, s.filter(pass), places),
        forall|k: int| 0 <= k < s.len() && pass(s[k]) <==> #[trigger] places.contains(k),
    decreases s.len(),
{
    reveal(Seq::filter);
    if s.len() == 0 {
        Seq::empty()
    } else {
        let before = lemma_filter_picks(s.drop_last(), pass);
        let n = s.len() - 1;
        assert forall|k: int| before.contains(k) implies 0 <= k < n by {}
        if pass(s.last()) {
            let places = before.push(n);
            assert forall|k: int| 0 <= k < s.len() && pass(s[k]) <==> #[trigger] places.contains(
                k,
            ) by {
                if k == n {
                    assert(places[places.len() - 1] == n);
                } else {
                    assert(places.contains(k) <==> before.contains(k)) by {
                        if before.contains(k) {
                            let i = choose|i: int| 0 <= i < before.len() && before[i] == k;
                            assert(places[i] == k);
                        }
                    }
                    if 0 <= k < n {
                        assert(s.drop_last()[k] == s[k]);
                    }
                }
            }
            assert forall|i: int, j: int| 0 <= i < j < places.len() implies (
            #[trigger] places[i]) < (#[trigger] places[j]) by {
                assert(before.contains(before[i]));
            }
            places
        } else {
            assert forall|k: int| 0 <= k < s.len() && pass(s[k]) <==> #[trigger] before.contains(
                k,
            ) by {
                if 0 <= k < n {
                    assert(s.drop_last()[k] == s[k]);
                }
            }
            before
        }
    }
}

} // verus!
