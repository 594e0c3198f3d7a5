//! What holds of cutting and joining texts.
use crate::llm::whole::flow;
use crate::text::{
    all_digits, begins, decimal, decimal_value, digit, first_place, joined, lemma_split_nonempty,
    lowered, occurs_at, padded, padded_left, repeated, split_on, stripped_end, swapped, trimmed,
    trimmed_end, trimmed_start, whitespace, words,
};
use vstd::prelude::*;

verus! {

/// A number as a text is a row of digits that stands for it, without a zero in front.
pub proof fn a_number_is_read_as_it_was_written(n: nat)
    ensures
        decimal_value(decimal(n)) == n,
        all_digits(decimal(n)),
        decimal(n).len() > 0,
        n > 0 ==> decimal(n)[0] != '0',
    decreases n,
{
    let d = (n % 10) as nat;
    assert(digit(d) as nat == 48 + d);
    if n < 10 {
        assert(decimal(n).drop_last() =~= Seq::<char>::empty());
        assert(decimal_value(Seq::<char>::empty()) == 0);
        assert(decimal(n).last() == digit(n));
    } else {
        a_number_is_read_as_it_was_written(n / 10);
        let before = decimal(n / 10);
        assert(decimal(n).drop_last() =~= before);
        assert forall|i: int| 0 <= i < decimal(n).len() implies '0' <= #[trigger] decimal(
            n,
        )[i] <= '9' by {
            if i < before.len() {
                assert(decimal(n)[i] == before[i]);
            }
        }
        assert(decimal(n)[0] == before[0]);
    }
}

/// Different numbers are written differently.
pub proof fn a_number_is_written_in_one_way(a: nat, b: nat)
    requires
        decimal(a) == decimal(b),
    ensures
        a == b,
{
    a_number_is_read_as_it_was_written(a);
    a_number_is_read_as_it_was_written(b);
}

/// A text that was cut at a separator comes back when its parts are joined with it,
/// and no part holds the separator.
pub proof fn joining_undoes_splitting(s: Seq<char>, sep: char)
    ensures
        joined(split_on(s, sep), seq![sep]) == s,
        forall|i: int|
            0 <= i < split_on(s, sep).len() ==> !(#[trigger] split_on(s, sep)[i]).contains(sep),
    decreases s.len(),
{
    let parts = split_on(s, sep);
    if s.len() == 0 {
        assert(parts[0] =~= s);
    } else {
        let t = s.drop_last();
        let rest = split_on(t, sep);
        lemma_split_nonempty(t, sep);
        joining_undoes_splitting(t, sep);
        assert(t.push(s.last()) =~= s);
        if s.last() == sep {
            assert(parts.drop_last() =~= rest);
            assert(joined(parts, seq![sep]) =~= t + seq![sep]);
            assert(t + seq![sep] =~= s);
            assert forall|i: int| 0 <= i < parts.len() implies !(#[trigger] parts[i]).contains(
                sep,
            ) by {
                if i < rest.len() {
                    assert(parts[i] == rest[i]);
                }
            }
        } else {
            let grown = rest.last().push(s.last());
            assert(parts.drop_last() =~= rest.drop_last());
            assert(parts.last() == grown);
            if rest.len() == 1 {
                assert(parts[0] == grown);
                assert(rest[0] == t);
            } else {
                assert(joined(parts, seq![sep]) =~= joined(rest.drop_last(), seq![sep])
                    + seq![sep] + grown);
                assert(joined(rest.drop_last(), seq![sep]) + seq![sep] + grown =~= (joined(
                    rest.drop_last(),
                    seq![sep],
                ) + seq![sep] + rest.last()).push(s.last()));
            }
            assert forall|i: int| 0 <= i < parts.len() implies !(#[trigger] parts[i]).contains(
                sep,
            ) by {
                if i < rest.len() - 1 {
                    assert(parts[i] == rest[i]);
                } else {
                    assert(!rest[rest.len() - 1].contains(sep));
                    assert(parts[i] == grown);
                    if grown.contains(sep) {
                        let k = choose|k: int| 0 <= k < grown.len() && grown[k] == sep;
                        assert(rest.last()[k] == sep);
                    }
                }
            }
        }
    }
}

/// Trimming leaves the stretch of a text from its first character that is no white
/// space to its last one.
pub proof fn trimming_cuts_only_space(s: Seq<char>)
    ensures
        exists|a: int, b: int|
            {
                &&& 0 <= a <= b <= s.len()
                &&& trimmed(s) == #[trigger] s.subrange(a, b)
                &&& forall|i: int| 0 <= i < a ==> whitespace(#[trigger] s[i])
                &&& forall|i: int| b <= i < s.len() ==> whitespace(#[trigger] s[i])
            },
        trimmed(s).len() > 0 ==> !whitespace(trimmed(s)[0]) && !whitespace(trimmed(s).last()),
{
    lemma_front(s);
    let r = trimmed_start(s);
    let a = s.len() - r.len();
    lemma_back(r);
    let t = trimmed(s);
    let b = a + t.len();
    assert(s.subrange(a, b) =~= t);
    assert forall|i: int| b <= i < s.len() implies whitespace(#[trigger] s[i]) by {
        assert(s[i] == r[i - a]);
    }
    if t.len() > 0 {
        assert(t[0] == r[0]);
    }
}

proof fn lemma_front(s: Seq<char>)
    ensures
        trimmed_start(s).len() <= s.len(),
        trimmed_start(s) == s.skip(s.len() - trimmed_start(s).len()),
        forall|i: int| 0 <= i < s.len() - trimmed_start(s).len() ==> whitespace(#[trigger] s[i]),
        trimmed_start(s).len() > 0 ==> !whitespace(trimmed_start(s)[0]),
    decreases s.len(),
{
    if s.len() > 0 && whitespace(s[0]) {
        let t = s.drop_first();
        lemma_front(t);
        let r = trimmed_start(t);
        assert(s.skip(s.len() - r.len()) =~= t.skip(t.len() - r.len()));
        assert forall|i: int| 0 <= i < s.len() - r.len() implies whitespace(#[trigger] s[i]) by {
            if i > 0 {
                assert(s[i] == t[i - 1]);
            }
        }
    } else {
        assert(s.skip(0) =~= s);
    }
}

proof fn lemma_back(s: Seq<char>)
    ensures
        trimmed_end(s).len() <= s.len(),
        trimmed_end(s) == s.take(trimmed_end(s).len() as int),
        forall|i: int| trimmed_end(s).len() <= i < s.len() ==> whitespace(#[trigger] s[i]),
        trimmed_end(s).len() > 0 ==> !whitespace(trimmed_end(s).last()),
    decreases s.len(),
{
    if s.len() > 0 && whitespace(s.last()) {
        let t = s.drop_last();
        lemma_back(t);
        let r = trimmed_end(t);
        assert(s.take(r.len() as int) =~= t.take(r.len() as int));
        assert forall|i: int| r.len() <= i < s.len() implies whitespace(#[trigger] s[i]) by {
            if i < s.len() - 1 {
                assert(s[i] == t[i]);
            }
        }
    } else {
        assert(s.take(s.len() as int) =~= s);
    }
}

/// A text whose end was stripped is how it begins, without that character at its end;
/// what was cut is nothing but that character.
pub proof fn stripping_cuts_only_the_end(s: Seq<char>, c: char)
    ensures
        stripped_end(s, c).len() <= s.len(),
        stripped_end(s, c) == s.take(stripped_end(s, c).len() as int),
        forall|i: int| stripped_end(s, c).len() <= i < s.len() ==> #[trigger] s[i] == c,
        stripped_end(s, c).len() > 0 ==> stripped_end(s, c).last() != c,
    decreases s.len(),
{
    if s.len() > 0 && s.last() == c {
        let t = s.drop_last();
        stripping_cuts_only_the_end(t, c);
        let r = stripped_end(t, c);
        assert(s.take(r.len() as int) =~= t.take(r.len() as int));
        assert forall|i: int| r.len() <= i < s.len() implies #[trigger] s[i] == c by {
            if i < s.len() - 1 {
                assert(s[i] == t[i]);
            }
        }
    } else {
        assert(s.take(s.len() as int) =~= s);
    }
}

/// What a text holds besides white space.
pub open spec fn without_space(s: Seq<char>) -> Seq<char>
    decreases s.len(),
{
    if s.len() == 0 {
        Seq::empty()
    } else if whitespace(s.last()) {
        without_space(s.drop_last())
    } else {
        without_space(s.drop_last()).push(s.last())
    }
}

/// The words of a text hold all of it but the white space, in order; none is empty and
/// none holds white space.
pub proof fn words_hold_all_but_space(s: Seq<char>)
    ensures
        flow(words(s)) == without_space(s),
        forall|i: int| 0 <= i < words(s).len() ==> (#[trigger] words(s)[i]).len() > 0,
        forall|i: int, j: int|
            0 <= i < words(s).len() && 0 <= j < words(s)[i].len() ==> !whitespace(
                #[trigger] words(s)[i][j],
            ),
        s.len() > 0 && !whitespace(s.last()) ==> words(s).len() > 0,
    decreases s.len(),
{
    if s.len() > 0 {
        let t = s.drop_last();
        words_hold_all_but_space(t);
        let before = words(t);
        let out = words(s);
        let c = s.last();
        if !whitespace(c) {
            if s.len() >= 2 && !whitespace(s[s.len() - 2]) {
                assert(t.last() == s[s.len() - 2]);
                let grown = before.last().push(c);
                assert(out.drop_last() =~= before.drop_last());
                assert(flow(before.drop_last()) + grown =~= (flow(before.drop_last())
                    + before.last()).push(c));
                assert forall|i: int| 0 <= i < out.len() implies (#[trigger] out[i]).len() > 0 by {
                    if i < before.len() - 1 {
                        assert(out[i] == before[i]);
                    }
                }
                assert forall|i: int, j: int|
                    0 <= i < out.len() && 0 <= j < out[i].len() implies !whitespace(
                    #[trigger] out[i][j],
                ) by {
                    if i < before.len() - 1 {
                        assert(out[i][j] == before[i][j]);
                    } else if j < before.last().len() {
                        assert(out[i][j] == before[before.len() - 1][j]);
                    }
                }
            } else {
                assert(out.drop_last() =~= before);
                assert(flow(before) + seq![c] =~= flow(before).push(c));
                assert forall|i: int| 0 <= i < out.len() implies (#[trigger] out[i]).len() > 0 by {
                    if i < before.len() {
                        assert(out[i] == before[i]);
                    }
                }
                assert forall|i: int, j: int|
                    0 <= i < out.len() && 0 <= j < out[i].len() implies !whitespace(
                    #[trigger] out[i][j],
                ) by {
                    if i < before.len() {
                        assert(out[i][j] == before[i][j]);
                    }
                }
            }
        }
    }
}

/// A padded text is as wide as was asked for, or wider where it was; it begins or ends
/// with the text, and the rest is spaces.
pub proof fn padding_only_adds_spaces(s: Seq<char>, width: nat)
    ensures
        padded(s, width).len() == if s.len() >= width {
            s.len()
        } else {
            width
        },
        padded(s, width).take(s.len() as int) == s,
        forall|i: int| s.len() <= i < padded(s, width).len() ==> #[trigger] padded(s, width)[i] == ' ',
        padded_left(s, width).len() == padded(s, width).len(),
        padded_left(s, width).skip(padded_left(s, width).len() - s.len()) == s,
        forall|i: int|
            0 <= i < padded_left(s, width).len() - s.len() ==> #[trigger] padded_left(s, width)[i]
                == ' ',
{
    if s.len() < width {
        lemma_repeated(' ', (width - s.len()) as nat);
    }
    assert(padded(s, width).take(s.len() as int) =~= s);
    assert(padded_left(s, width).skip(padded_left(s, width).len() - s.len()) =~= s);
}

proof fn lemma_repeated(c: char, n: nat)
    ensures
        repeated(seq![c], n).len() == n,
        forall|i: int| 0 <= i < n ==> #[trigger] repeated(seq![c], n)[i] == c,
    decreases n,
{
    if n > 0 {
        lemma_repeated(c, (n - 1) as nat);
    }
}

/// A text keeps its length in small letters, and every character but a capital letter
/// stays; a capital letter becomes the small one.
pub proof fn small_letters_keep_the_rest(s: Seq<char>)
    ensures
        lowered(s).len() == s.len(),
        forall|i: int|
            0 <= i < s.len() && !('A' <= s[i] <= 'Z') ==> #[trigger] lowered(s)[i] == s[i],
        forall|i: int|
            0 <= i < s.len() && 'A' <= s[i] <= 'Z' ==> #[trigger] lowered(s)[i] as int == s[i] as int
                + 32,
        lowered(lowered(s)) == lowered(s),
{
    assert(lowered(lowered(s)) =~= lowered(s));
}

/// Where a text does not stand in another, nothing is swapped; where it does, the first
/// one gives way and what is before it stays.
pub proof fn swapping_changes_every_place(s: Seq<char>, old: Seq<char>, new: Seq<char>)
    requires
        old.len() > 0,
    ensures
        ({
            let k = first_place(s, old, 0);
            if occurs_at(s, old, k) {
                swapped(s, old, new) == s.take(k) + new + swapped(
                    s.skip(k + old.len()),
                    old,
                    new,
                )
            } else {
                swapped(s, old, new) == s
            }
        }),
    decreases s.len(),
{
    let k = first_place(s, old, 0);
    if s.len() >= old.len() {
        assert(s.subrange(0, 0int + old.len()) =~= s.take(old.len() as int));
        if begins(s, old) {
            assert(occurs_at(s, old, 0));
            assert(s.take(0) + new =~= new);
        } else {
            assert(!occurs_at(s, old, 0));
            let t = s.drop_first();
            swapping_changes_every_place(t, old, new);
            lemma_shifted(s, old, 1);
            assert(k == 1 + first_place(t, old, 0) || k == s.len());
            if occurs_at(s, old, k) {
                let j = k - 1;
                assert(t.subrange(j, j + old.len()) =~= s.subrange(k, k + old.len()));
                assert(seq![s[0]] + t.take(j) =~= s.take(k));
                assert(t.skip(j + old.len()) =~= s.skip(k + old.len()));
                assert(swapped(s, old, new) =~= s.take(k) + new + swapped(
                    s.skip(k + old.len()),
                    old,
                    new,
                ));
            } else {
                assert(seq![s[0]] + t =~= s);
            }
        }
    } else {
        assert(k == s.len());
    }
}

proof fn lemma_shifted(s: Seq<char>, old: Seq<char>, from: int)
    requires
        1 <= from,
        old.len() > 0,
        s.len() > 0,
    ensures
        ({
            let a = first_place(s, old, from);
            let b = first_place(s.drop_first(), old, from - 1);
            &&& a == b + 1
            &&& occurs_at(s, old, a) <==> occurs_at(s.drop_first(), old, b)
        }),
    decreases s.len() - from,
{
    let t = s.drop_first();
    if from + old.len() <= s.len() {
        assert(t.subrange(from - 1, from - 1 + old.len()) =~= s.subrange(from, from + old.len()));
        if !occurs_at(s, old, from) {
            lemma_shifted(s, old, from + 1);
        }
    }
}

} // verus!
