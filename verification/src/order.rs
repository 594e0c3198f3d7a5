//! The order of texts by their characters, and lists sorted by it.
use crate::text::{chars_of, same, texts};
use vstd::prelude::*;

verus! {

/// `a` comes strictly before `b`: character by character, and a text before
/// those that continue it.
pub open spec fn text_before(a: Seq<char>, b: Seq<char>) -> bool
    decreases a.len(),
{
    if b.len() == 0 {
        false
    } else if a.len() == 0 {
        true
    } else if a[0] != b[0] {
        a[0] < b[0]
    } else {
        text_before(a.drop_first(), b.drop_first())
    }
}

/// Whether `a` comes strictly before `b`.
pub fn is_before(a: &str, b: &str) -> (r: bool)
    ensures
        r == text_before(a@, b@),
{
    let x = chars_of(a);
    let y = chars_of(b);
    let mut i: usize = 0;
    assert(x@.skip(0) =~= x@ && y@.skip(0) =~= y@);
    while i < x.len() && i < y.len()
        invariant
            i <= x.len(),
            i <= y.len(),
            x@ == a@,
            y@ == b@,
            text_before(a@, b@) == text_before(x@.skip(i as int), y@.skip(i as int)),
        decreases x.len() - i,
    {
        proof {
            assert(x@.skip(i as int).drop_first() =~= x@.skip(i + 1));
            assert(y@.skip(i as int).drop_first() =~= y@.skip(i + 1));
        }
        if x[i] != y[i] {
            return x[i] < y[i];
        }
        i += 1;
    }
    i < y.len()
}

/// No text comes before itself, and of two different texts one comes before
/// the other.
pub proof fn text_order_is_total(a: Seq<char>, b: Seq<char>)
    ensures
        text_before(a, b) ==> !text_before(b, a),
        !text_before(a, b) && !text_before(b, a) <==> a == b,
    decreases a.len(),
{
    if a.len() > 0 && b.len() > 0 && a[0] == b[0] {
        text_order_is_total(a.drop_first(), b.drop_first());
        if a.drop_first() == b.drop_first() {
            assert(a =~= seq![a[0]] + a.drop_first());
            assert(b =~= seq![b[0]] + b.drop_first());
        }
    } else if a.len() == 0 && b.len() == 0 {
        assert(a =~= b);
    }
}

/// A text that is not after one that is not after a third is not after the
/// third.
pub proof fn text_order_is_transitive(a: Seq<char>, b: Seq<char>, c: Seq<char>)
    requires
        !text_before(b, a),
        !text_before(c, b),
    ensures
        !text_before(c, a),
    decreases a.len(),
{
    if a.len() > 0 && b.len() > 0 && c.len() > 0 && a[0] == b[0] && b[0] == c[0] {
        text_order_is_transitive(a.drop_first(), b.drop_first(), c.drop_first());
    }
}

/// What comes before something comes before all that follows it.
pub proof fn text_before_is_transitive(a: Seq<char>, b: Seq<char>, c: Seq<char>)
    requires
        text_before(a, b),
        text_before(b, c),
    ensures
        text_before(a, c),
{
    text_order_is_total(a, b);
    text_order_is_total(b, c);
    text_order_is_total(a, c);
    text_order_is_transitive(a, b, c);
}

/// A text put into its place in a sorted list: behind all that do not come
/// after it.
pub open spec fn put(sorted: Seq<Seq<char>>, new: Seq<char>) -> Seq<Seq<char>>
    decreases sorted.len(),
{
    if sorted.len() > 0 && text_before(new, sorted.last()) {
        put(sorted.drop_last(), new).push(sorted.last())
    } else {
        sorted.push(new)
    }
}

/// The texts of a list in order.
pub open spec fn ordered(list: Seq<Seq<char>>) -> Seq<Seq<char>>
    decreases list.len(),
{
    if list.len() == 0 {
        Seq::empty()
    } else {
        put(ordered(list.drop_last()), list.last())
    }
}

/// No text comes before one in front of it.
pub open spec fn in_order(list: Seq<Seq<char>>) -> bool {
    forall|i: int, j: int|
        0 <= i < j < list.len() ==> !text_before(#[trigger] list[j], #[trigger] list[i])
}

proof fn lemma_put(sorted: Seq<Seq<char>>, new: Seq<char>)
    requires
        in_order(sorted),
    ensures
        in_order(put(sorted, new)),
        put(sorted, new).to_multiset() == sorted.to_multiset().insert(new),
        forall|i: int|
            0 <= i < put(sorted, new).len() ==> (#[trigger] put(sorted, new)[i] == new
                || sorted.contains(put(sorted, new)[i])),
    decreases sorted.len(),
{
    broadcast use vstd::seq_lib::group_to_multiset_ensures;

    let out = put(sorted, new);
    if sorted.len() > 0 && text_before(new, sorted.last()) {
        let t = sorted.drop_last();
        let last = sorted.last();
        assert(in_order(t)) by {
            assert forall|i: int, j: int| 0 <= i < j < t.len() implies !text_before(
                #[trigger] t[j],
                #[trigger] t[i],
            ) by {
                assert(t[i] == sorted[i] && t[j] == sorted[j]);
            }
        }
        lemma_put(t, new);
        let sub = put(t, new);
        assert(sorted =~= t.push(last));
        assert(out.to_multiset() =~= sorted.to_multiset().insert(new));
        assert forall|i: int| 0 <= i < out.len() implies (#[trigger] out[i] == new
            || sorted.contains(out[i])) by {
            if i < sub.len() {
                assert(out[i] == sub[i]);
                if sub[i] != new {
                    assert(t.contains(sub[i]));
                    let n = choose|n: int| 0 <= n < t.len() && t[n] == sub[i];
                    assert(sorted[n] == out[i]);
                }
            } else {
                assert(sorted[sorted.len() - 1] == out[i]);
            }
        }
        assert forall|i: int, j: int| 0 <= i < j < out.len() implies !text_before(
            #[trigger] out[j],
            #[trigger] out[i],
        ) by {
            assert(out[i] == sub[i]);
            if j < sub.len() {
                assert(out[j] == sub[j]);
            } else if sub[i] == new {
                text_order_is_total(new, last);
            } else {
                assert(t.contains(sub[i]));
                let n = choose|n: int| 0 <= n < t.len() && t[n] == sub[i];
                assert(!text_before(sorted[sorted.len() - 1], sorted[n]));
            }
        }
    } else {
        assert forall|i: int| 0 <= i < out.len() implies (#[trigger] out[i] == new
            || sorted.contains(out[i])) by {
            if i < sorted.len() {
                assert(out[i] == sorted[i]);
            }
        }
        assert forall|i: int, j: int| 0 <= i < j < out.len() implies !text_before(
            #[trigger] out[j],
            #[trigger] out[i],
        ) by {
            assert(out[i] == sorted[i]);
            if j < sorted.len() {
                assert(out[j] == sorted[j]);
            } else if i < sorted.len() - 1 {
                assert(!text_before(sorted[sorted.len() - 1], sorted[i]));
                text_order_is_transitive(sorted[i], sorted.last(), new);
            }
        }
    }
}

/// Sorting puts texts in order, and neither loses nor adds one.
pub proof fn sorting_orders(list: Seq<Seq<char>>)
    ensures
        in_order(ordered(list)),
        ordered(list).to_multiset() == list.to_multiset(),
    decreases list.len(),
{
    broadcast use vstd::seq_lib::group_to_multiset_ensures;

    if list.len() > 0 {
        sorting_orders(list.drop_last());
        lemma_put(ordered(list.drop_last()), list.last());
        assert(list =~= list.drop_last().push(list.last()));
    }
}

proof fn lemma_put_at(sorted: Seq<Seq<char>>, new: Seq<char>, k: int)
    requires
        0 <= k <= sorted.len(),
        k > 0 ==> !text_before(new, sorted[k - 1]),
        forall|i: int| k <= i < sorted.len() ==> text_before(new, #[trigger] sorted[i]),
    ensures
        put(sorted, new) == sorted.insert(k, new),
    decreases sorted.len(),
{
    if k < sorted.len() {
        let t = sorted.drop_last();
        assert forall|i: int| k <= i < t.len() implies text_before(new, #[trigger] t[i]) by {
            assert(t[i] == sorted[i]);
        }
        assert(k > 0 ==> t[k - 1] == sorted[k - 1]);
        assert(text_before(new, sorted[sorted.len() - 1]));
        lemma_put_at(t, new, k);
        assert(t.insert(k, new).push(sorted.last()) =~= sorted.insert(k, new));
    } else {
        assert(sorted.insert(k, new) =~= sorted.push(new));
    }
}

/// The texts of a list in order.
pub fn sort_texts(list: &Vec<String>) -> (r: Vec<String>)
    ensures
        texts(r@) == ordered(texts(list@)),
{
    let ghost all = texts(list@);
    let mut out: Vec<String> = Vec::new();
    let mut i: usize = 0;
    assert(texts(out@) =~= ordered(all.take(0)));
    while i < list.len()
        invariant
            i <= list.len(),
            all == texts(list@),
            texts(out@) == ordered(all.take(i as int)),
        decreases list.len() - i,
    {
        let item = list[i].clone();
        let mut k: usize = out.len();
        while k > 0 && is_before(item.as_str(), out[k - 1].as_str())
            invariant
                k <= out.len(),
                forall|j: int| k <= j < out.len() ==> text_before(item@, #[trigger] out@[j]@),
            decreases k,
        {
            k -= 1;
        }
        proof {
            let now = all.take(i + 1);
            assert(now.drop_last() =~= all.take(i as int));
            assert(now.last() == item@);
            let sorted = texts(out@);
            assert forall|j: int| k <= j < sorted.len() implies text_before(
                item@,
                #[trigger] sorted[j],
            ) by {
                assert(sorted[j] == out@[j]@);
            }
            assert(k > 0 ==> sorted[k - 1] == out@[k - 1]@);
            lemma_put_at(sorted, item@, k as int);
            assert(texts(out@.insert(k as int, item)) =~= sorted.insert(k as int, item@));
        }
        out.insert(k, item);
        i += 1;
    }
    assert(all.take(i as int) =~= all);
    out
}

/// A list without the texts that repeat the one just before them.
pub open spec fn without_repeats(list: Seq<Seq<char>>) -> Seq<Seq<char>>
    decreases list.len(),
{
    if list.len() == 0 {
        Seq::empty()
    } else if list.len() >= 2 && list[list.len() - 2] == list.last() {
        without_repeats(list.drop_last())
    } else {
        without_repeats(list.drop_last()).push(list.last())
    }
}

/// A list without the texts that repeat the one just before them.
pub fn drop_repeats(list: &Vec<String>) -> (r: Vec<String>)
    ensures
        texts(r@) == without_repeats(texts(list@)),
{
    let ghost all = texts(list@);
    let mut out: Vec<String> = Vec::new();
    let mut i: usize = 0;
    assert(texts(out@) =~= without_repeats(all.take(0)));
    while i < list.len()
        invariant
            i <= list.len(),
            all == texts(list@),
            texts(out@) == without_repeats(all.take(i as int)),
        decreases list.len() - i,
    {
        proof {
            let now = all.take(i + 1);
            assert(now.drop_last() =~= all.take(i as int));
            assert(now.last() == list@[i as int]@);
            assert(i > 0 ==> now[now.len() - 2] == list@[i - 1]@);
            crate::text::lemma_texts_push(out@, list@[i as int]);
        }
        let repeated = i > 0 && same(list[i - 1].as_str(), list[i].as_str());
        if !repeated {
            out.push(list[i].clone());
        }
        i += 1;
    }
    assert(all.take(i as int) =~= all);
    out
}

/// A list in order keeps each of its texts once when repeats are dropped: none is
/// lost, none is added, and none stands twice.
pub proof fn repeats_are_dropped(list: Seq<Seq<char>>)
    requires
        in_order(list),
    ensures
        in_order(without_repeats(list)),
        without_repeats(list).no_duplicates(),
        forall|t: Seq<char>| list.contains(t) <==> #[trigger] without_repeats(list).contains(t),
        list.len() > 0 ==> without_repeats(list).len() > 0 && without_repeats(list).last()
            == list.last(),
    decreases list.len(),
{
    let out = without_repeats(list);
    if list.len() > 0 {
        let t = list.drop_last();
        let before = without_repeats(t);
        assert forall|i: int, j: int| 0 <= i < j < t.len() implies !text_before(
            #[trigger] t[j],
            #[trigger] t[i],
        ) by {
            assert(t[i] == list[i] && t[j] == list[j]);
        }
        repeats_are_dropped(t);
        let last = list.last();
        assert forall|x: Seq<char>| list.contains(x) <==> #[trigger] out.contains(x) by {
            if list.contains(x) {
                let k = choose|k: int| 0 <= k < list.len() && list[k] == x;
                if k < t.len() {
                    assert(t[k] == x);
                    assert(before.contains(x));
                    let m = choose|m: int| 0 <= m < before.len() && before[m] == x;
                    assert(out[m] == x);
                } else {
                    assert(out[out.len() - 1] == x);
                }
            }
            if out.contains(x) {
                let m = choose|m: int| 0 <= m < out.len() && out[m] == x;
                if m < before.len() {
                    assert(before[m] == x);
                    assert(t.contains(x));
                    let k = choose|k: int| 0 <= k < t.len() && t[k] == x;
                    assert(list[k] == x);
                } else {
                    assert(list[list.len() - 1] == x);
                }
            }
        }
        if !(list.len() >= 2 && list[list.len() - 2] == last) {
            assert forall|i: int| 0 <= i < before.len() implies !text_before(
                last,
                #[trigger] before[i],
            ) && before[i] != last by {
                assert(before.contains(before[i]));
                assert(t.contains(before[i]));
                let k = choose|k: int| 0 <= k < t.len() && t[k] == before[i];
                assert(list[k] == before[i]);
                assert(!text_before(list[list.len() - 1], list[k]));
                if before[i] == last {
                    let p = list.len() - 2;
                    assert(list[p] != last);
                    assert(!text_before(list[list.len() - 1], list[p]));
                    text_order_is_total(list[p], last);
                    assert(text_before(list[p], last));
                    if k < p {
                        assert(!text_before(list[p], list[k]));
                    }
                }
            }
            assert forall|i: int, j: int| 0 <= i < j < out.len() implies !text_before(
                #[trigger] out[j],
                #[trigger] out[i],
            ) by {
                if j < before.len() {
                    assert(!text_before(before[j], before[i]));
                }
            }
            assert(out.no_duplicates());
        }
    }
}

} // verus!
