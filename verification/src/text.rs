//! Text as a sequence of characters: trimming, splitting, joining, numbers.
use vstd::prelude::*;

verus! {

/// `String::push` of the standard library: appends one character.
pub assume_specification[ String::push ](text: &mut String, ch: char)
    ensures
        final(text)@ == old(text)@.push(ch),
;

/// The characters with Unicode's White_Space property.
pub open spec fn whitespace(c: char) -> bool {
    ||| '\u{9}' <= c <= '\u{d}'
    ||| c == ' '
    ||| c == '\u{85}'
    ||| c == '\u{a0}'
    ||| c == '\u{1680}'
    ||| '\u{2000}' <= c <= '\u{200a}'
    ||| c == '\u{2028}'
    ||| c == '\u{2029}'
    ||| c == '\u{202f}'
    ||| c == '\u{205f}'
    ||| c == '\u{3000}'
}

/// Whether `c` is white space.
pub fn is_whitespace(c: char) -> (r: bool)
    ensures
        r == whitespace(c),
{
    ('\u{9}' <= c && c <= '\u{d}') || c == ' ' || c == '\u{85}' || c == '\u{a0}' || c == '\u{1680}'
        || ('\u{2000}' <= c && c <= '\u{200a}') || c == '\u{2028}' || c == '\u{2029}' || c
        == '\u{202f}' || c == '\u{205f}' || c == '\u{3000}'
}

/// The characters of Unicode's general category Cc.
pub open spec fn control(c: char) -> bool {
    c <= '\u{1f}' || '\u{7f}' <= c <= '\u{9f}'
}

/// Whether `c` is a control character.
pub fn is_control(c: char) -> (r: bool)
    ensures
        r == control(c),
{
    c <= '\u{1f}' || ('\u{7f}' <= c && c <= '\u{9f}')
}

/// `s` without its leading white space.
pub open spec fn trimmed_start(s: Seq<char>) -> Seq<char>
    decreases s.len(),
{
    if s.len() > 0 && whitespace(s[0]) {
        trimmed_start(s.drop_first())
    } else {
        s
    }
}

/// `s` without its trailing white space.
pub open spec fn trimmed_end(s: Seq<char>) -> Seq<char>
    decreases s.len(),
{
    if s.len() > 0 && whitespace(s.last()) {
        trimmed_end(s.drop_last())
    } else {
        s
    }
}

/// `s` without white space at either end.
pub open spec fn trimmed(s: Seq<char>) -> Seq<char> {
    trimmed_end(trimmed_start(s))
}

/// Nothing but white space.
pub open spec fn blank(s: Seq<char>) -> bool {
    forall|i: int| 0 <= i < s.len() ==> whitespace(#[trigger] s[i])
}

/// A text is blank exactly when trimming leaves nothing of it, and what
/// trimming leaves is not blank.
pub proof fn a_blank_text_trims_to_nothing(s: Seq<char>)
    ensures
        blank(s) <==> trimmed(s).len() == 0,
        trimmed(s).len() > 0 ==> !blank(trimmed(s)),
{
    lemma_trimmed_start(s);
    let rest = trimmed_start(s);
    if rest.len() > 0 {
        lemma_trimmed_end(rest);
        let k = s.len() - rest.len();
        assert(s[k] == rest[0]);
        if trimmed(s).len() == 0 {
            assert(whitespace(rest[0]));
        } else {
            assert(!whitespace(trimmed(s)[trimmed(s).len() - 1]));
        }
    } else {
        assert forall|i: int| 0 <= i < s.len() implies whitespace(#[trigger] s[i]) by {}
    }
}

proof fn lemma_trimmed_start(s: Seq<char>)
    ensures
        trimmed_start(s).len() <= s.len(),
        trimmed_start(s) == s.skip(s.len() - trimmed_start(s).len()),
        forall|i: int| 0 <= i < s.len() - trimmed_start(s).len() ==> whitespace(#[trigger] s[i]),
        trimmed_start(s).len() > 0 ==> !whitespace(trimmed_start(s)[0]),
    decreases s.len(),
{
    if s.len() > 0 && whitespace(s[0]) {
        let t = s.drop_first();
        lemma_trimmed_start(t);
        let r = trimmed_start(t);
        assert(s.skip(s.len() - r.len()) =~= t.skip(t.len() - r.len()));
        assert forall|i: int| 0 <= i < s.len() - r.len() implies whitespace(#[trigger] s[i]) by {
            if i > 0 {
                assert(s[i] == t[i - 1]);
            }
        }
    } else {
        assert(s.skip(0) =~= s);
    }
}

proof fn lemma_trimmed_end(s: Seq<char>)
    ensures
        trimmed_end(s).len() <= s.len(),
        trimmed_end(s) == s.take(trimmed_end(s).len() as int),
        forall|i: int| trimmed_end(s).len() <= i < s.len() ==> whitespace(#[trigger] s[i]),
        trimmed_end(s).len() > 0 ==> !whitespace(trimmed_end(s).last()),
    decreases s.len(),
{
    if s.len() > 0 && whitespace(s.last()) {
        let t = s.drop_last();
        lemma_trimmed_end(t);
        let r = trimmed_end(t);
        assert(s.take(r.len() as int) =~= t.take(r.len() as int));
        assert forall|i: int| r.len() <= i < s.len() implies whitespace(#[trigger] s[i]) by {
            if i < s.len() - 1 {
                assert(s[i] == t[i]);
            }
        }
    } else {
        assert(s.take(s.len() as int) =~= s);
    }
}

/// Trimming cuts exactly the stretch between two positions when everything
/// outside it is white space and both of its ends are not.
pub proof fn lemma_trimmed_is(s: Seq<char>, a: int, b: int)
    requires
        0 <= a <= b <= s.len(),
        forall|i: int| 0 <= i < a ==> whitespace(#[trigger] s[i]),
        forall|i: int| b <= i < s.len() ==> whitespace(#[trigger] s[i]),
        a < b ==> !whitespace(s[a]) && !whitespace(s[b - 1]),
        a == b ==> a == s.len(),
    ensures
        trimmed(s) == s.subrange(a, b),
{
    lemma_trimmed_start(s);
    let r = trimmed_start(s);
    let k = s.len() - r.len();
    if a < b {
        if k < a {
            assert(r[0] == s[k]);
        }
        if k > a {
            assert(whitespace(s[a]));
        }
        lemma_trimmed_end(r);
        let t = trimmed_end(r);
        let e = k + t.len();
        assert(r[b - 1 - k] == s[b - 1]);
        if e < b {
            assert(whitespace(r[b - 1 - k]));
        }
        if e > b {
            assert(t.last() == s[e - 1]);
        }
        assert(t =~= s.subrange(a, b));
    } else {
        if k < s.len() {
            assert(r[0] == s[k]);
        }
        assert(r.len() == 0);
        assert(s.subrange(a, b) =~= trimmed(s));
    }
}

/// The characters of a string.
pub fn chars_of(text: &str) -> (r: Vec<char>)
    ensures
        r@ == text@,
{
    let mut out: Vec<char> = Vec::new();
    for c in it: text.chars()
        invariant
            out@ == it.seq().take(it.index()),
            it.seq() == text@,
    {
        out.push(c);
        assert(it.seq().take(it.index() + 1) =~= it.seq().take(it.index()).push(c));
    }
    assert(text@.take(text@.len() as int) =~= text@);
    out
}

/// The string of `chars[from..to]`.
pub fn string_of(chars: &Vec<char>, from: usize, to: usize) -> (r: String)
    requires
        from <= to <= chars.len(),
    ensures
        r@ == chars@.subrange(from as int, to as int),
{
    let mut out = String::new();
    let mut i: usize = from;
    while i < to
        invariant
            from <= i <= to <= chars.len(),
            out@ == chars@.subrange(from as int, i as int),
        decreases to - i,
    {
        out.push(chars[i]);
        i += 1;
        assert(chars@.subrange(from as int, i as int) =~= chars@.subrange(
            from as int,
            i - 1,
        ).push(chars@[i - 1]));
    }
    out
}

/// `text` without white space at either end.
pub fn trim(text: &str) -> (r: String)
    ensures
        r@ == trimmed(text@),
{
    let chars = chars_of(text);
    let mut a: usize = 0;
    while a < chars.len() && is_whitespace(chars[a])
        invariant
            a <= chars.len(),
            forall|i: int| 0 <= i < a ==> whitespace(#[trigger] chars@[i]),
        decreases chars.len() - a,
    {
        a += 1;
    }
    let mut b: usize = chars.len();
    while a < b && is_whitespace(chars[b - 1])
        invariant
            a <= b <= chars.len(),
            a < chars.len() ==> !whitespace(chars@[a as int]) && a < b,
            forall|i: int| b <= i < chars.len() ==> whitespace(#[trigger] chars@[i]),
        decreases b,
    {
        b -= 1;
    }
    proof {
        lemma_trimmed_is(chars@, a as int, b as int);
    }
    string_of(&chars, a, b)
}

/// Whether `text` holds nothing but white space.
pub fn is_blank(text: &str) -> (r: bool)
    ensures
        r == blank(text@),
{
    let chars = chars_of(text);
    let mut i: usize = 0;
    while i < chars.len()
        invariant
            i <= chars.len(),
            chars@ == text@,
            forall|j: int| 0 <= j < i ==> whitespace(#[trigger] chars@[j]),
        decreases chars.len() - i,
    {
        if !is_whitespace(chars[i]) {
            assert(!whitespace(text@[i as int]));
            return false;
        }
        i += 1;
    }
    true
}

/// Whether two texts hold the same characters.
pub fn same(a: &str, b: &str) -> (r: bool)
    ensures
        r == (a@ == b@),
{
    let x: String = a.to_owned();
    let y: String = b.to_owned();
    x == y
}

/// The view of a list of strings.
pub open spec fn texts(v: Seq<String>) -> Seq<Seq<char>> {
    v.map_values(|s: String| s@)
}

pub proof fn lemma_texts_push(v: Seq<String>, s: String)
    ensures
        texts(v.push(s)) == texts(v).push(s@),
{
    assert(texts(v.push(s)) =~= texts(v).push(s@));
}

/// An optional string's view.
pub open spec fn maybe(s: Option<String>) -> Option<Seq<char>> {
    match s {
        Some(t) => Some(t@),
        None => None,
    }
}

/// Whether `item` is one of `list`.
pub fn lists(list: &Vec<String>, item: &str) -> (r: bool)
    ensures
        r == texts(list@).contains(item@),
{
    let mut i: usize = 0;
    while i < list.len()
        invariant
            i <= list.len(),
            forall|j: int| 0 <= j < i ==> #[trigger] texts(list@)[j] != item@,
        decreases list.len() - i,
    {
        if same(list[i].as_str(), item) {
            assert(texts(list@)[i as int] == item@);
            return true;
        }
        i += 1;
    }
    false
}

/// A copy of a list of strings.
pub fn copy_list(list: &Vec<String>) -> (r: Vec<String>)
    ensures
        r@ == list@,
{
    let mut out: Vec<String> = Vec::new();
    let mut i: usize = 0;
    while i < list.len()
        invariant
            i <= list.len(),
            out@ == list@.take(i as int),
        decreases list.len() - i,
    {
        out.push(list[i].clone());
        i += 1;
        assert(list@.take(i as int) =~= list@.take(i - 1).push(list@[i - 1]));
    }
    assert(list@.take(i as int) =~= list@);
    out
}

/// The decimal digit of `d`, for `d` below ten.
pub open spec fn digit(d: nat) -> char {
    (48 + d) as char
}

/// `n` in decimal, without leading zeros.
pub open spec fn decimal(n: nat) -> Seq<char>
    decreases n,
{
    if n < 10 {
        seq![digit(n)]
    } else {
        decimal(n / 10).push(digit(n % 10))
    }
}

fn digit_char(d: u64) -> (r: char)
    requires
        d < 10,
    ensures
        r == digit(d as nat),
{
    (48 + d as u8) as char
}

/// `n` in decimal.
pub fn decimal_of(n: u64) -> (r: String)
    ensures
        r@ == decimal(n as nat),
    decreases n,
{
    if n < 10 {
        let mut out = String::new();
        out.push(digit_char(n));
        assert(out@ =~= seq![digit(n as nat)]);
        out
    } else {
        let mut out = decimal_of(n / 10);
        out.push(digit_char(n % 10));
        out
    }
}

/// The number that a run of decimal digits writes.
pub open spec fn decimal_value(s: Seq<char>) -> nat
    decreases s.len(),
{
    if s.len() == 0 {
        0
    } else {
        10 * decimal_value(s.drop_last()) + ((s.last() as nat) - 48) as nat
    }
}

/// Nothing but decimal digits.
pub open spec fn all_digits(s: Seq<char>) -> bool {
    forall|i: int| 0 <= i < s.len() ==> '0' <= #[trigger] s[i] <= '9'
}

/// What a text says as an unsigned number up to `limit`: decimal digits, with
/// an optional plus sign in front.
pub open spec fn number(s: Seq<char>, limit: nat) -> Option<nat> {
    let body = if s.len() > 0 && s[0] == '+' {
        s.drop_first()
    } else {
        s
    };
    if body.len() > 0 && all_digits(body) && decimal_value(body) <= limit {
        Some(decimal_value(body))
    } else {
        None
    }
}

proof fn lemma_decimal_value_grows(s: Seq<char>, k: int)
    requires
        0 <= k <= s.len(),
    ensures
        decimal_value(s.take(k)) <= decimal_value(s),
    decreases s.len() - k,
{
    if k < s.len() {
        lemma_decimal_value_grows(s, k + 1);
        assert(s.take(k + 1).drop_last() =~= s.take(k));
    } else {
        assert(s.take(k) =~= s);
    }
}

/// Reads an unsigned number no greater than `limit`.
pub fn parse_number(text: &str, limit: u64) -> (r: Option<u64>)
    ensures
        match r {
            Some(n) => number(text@, limit as nat) == Some(n as nat),
            None => number(text@, limit as nat) is None,
        },
{
    let chars = chars_of(text);
    let start: usize = if chars.len() > 0 && chars[0] == '+' {
        1
    } else {
        0
    };
    let ghost body = chars@.skip(start as int);
    assert(start == 1 ==> body =~= text@.drop_first());
    assert(start == 0 ==> body =~= text@);
    if start == chars.len() {
        return None;
    }
    let mut value: u64 = 0;
    let mut i: usize = start;
    while i < chars.len()
        invariant
            start <= i <= chars.len(),
            body == chars@.skip(start as int),
            start == 1 ==> body =~= text@.drop_first() && text@.len() > 0 && text@[0] == '+',
            start == 0 ==> body =~= text@ && (text@.len() > 0 ==> text@[0] != '+'),
            start <= 1,
            all_digits(body.take(i - start)),
            value == decimal_value(body.take(i - start)),
            value <= limit,
        decreases chars.len() - i,
    {
        let c = chars[i];
        assert(body[i - start] == c);
        if c < '0' || c > '9' {
            return None;
        }
        let d: u64 = (c as u32 - 48) as u64;
        proof {
            let next = body.take(i - start + 1);
            assert(next.drop_last() =~= body.take(i - start));
            assert(next.last() == c);
            assert(decimal_value(next) == 10 * value + d);
            lemma_decimal_value_grows(body, i - start + 1);
            assert forall|j: int| 0 <= j < next.len() implies '0' <= #[trigger] next[j] <= '9' by {
                if j < i - start {
                    assert(next[j] == body.take(i - start)[j]);
                }
            }
        }
        if value > limit / 10 {
            assert(10 * value + d > limit) by (nonlinear_arith)
                requires
                    value > limit / 10,
                    d >= 0,
            ;
            return None;
        }
        if d > limit - 10 * value {
            return None;
        }
        value = 10 * value + d;
        i += 1;
    }
    assert(body.take(i - start) =~= body);
    Some(value)
}

/// `text` begins with `prefix`.
pub open spec fn begins(text: Seq<char>, prefix: Seq<char>) -> bool {
    prefix.len() <= text.len() && text.take(prefix.len() as int) == prefix
}

/// What follows `prefix` in `text`, where `text` begins with it.
pub fn strip_prefix(text: &str, prefix: &str) -> (r: Option<String>)
    ensures
        match r {
            Some(rest) => begins(text@, prefix@) && rest@ == text@.skip(prefix@.len() as int),
            None => !begins(text@, prefix@),
        },
{
    let t = chars_of(text);
    let p = chars_of(prefix);
    if p.len() > t.len() {
        return None;
    }
    let mut i: usize = 0;
    while i < p.len()
        invariant
            i <= p.len() <= t.len(),
            t@ == text@,
            p@ == prefix@,
            forall|j: int| 0 <= j < i ==> t@[j] == p@[j],
        decreases p.len() - i,
    {
        if t[i] != p[i] {
            proof {
                if begins(text@, prefix@) {
                    assert(text@.take(prefix@.len() as int)[i as int] == prefix@[i as int]);
                }
            }
            return None;
        }
        i += 1;
    }
    assert(text@.take(prefix@.len() as int) =~= prefix@);
    let rest = string_of(&t, p.len(), t.len());
    assert(rest@ =~= text@.skip(prefix@.len() as int));
    Some(rest)
}

/// Whether `text` begins with `prefix`.
pub fn starts_with(text: &str, prefix: &str) -> (r: bool)
    ensures
        r == begins(text@, prefix@),
{
    strip_prefix(text, prefix).is_some()
}

/// The first `limit` characters of `s`.
pub open spec fn first(s: Seq<char>, limit: nat) -> Seq<char> {
    if s.len() <= limit {
        s
    } else {
        s.take(limit as int)
    }
}

/// The first `limit` characters of `text`.
pub fn take_chars(text: &str, limit: usize) -> (r: String)
    ensures
        r@ == first(text@, limit as nat),
{
    let chars = chars_of(text);
    let end: usize = if chars.len() <= limit {
        chars.len()
    } else {
        limit
    };
    let out = string_of(&chars, 0, end);
    assert(out@ =~= first(text@, limit as nat));
    out
}

/// The stretches of `s` between the occurrences of `sep`.
pub open spec fn split_on(s: Seq<char>, sep: char) -> Seq<Seq<char>>
    decreases s.len(),
{
    if s.len() == 0 {
        seq![Seq::empty()]
    } else {
        let rest = split_on(s.drop_last(), sep);
        if s.last() == sep {
            rest.push(Seq::empty())
        } else {
            rest.drop_last().push(rest.last().push(s.last()))
        }
    }
}

pub proof fn lemma_split_nonempty(s: Seq<char>, sep: char)
    ensures
        split_on(s, sep).len() > 0,
    decreases s.len(),
{
    if s.len() > 0 {
        lemma_split_nonempty(s.drop_last(), sep);
    }
}

/// The stretches of `text` between the occurrences of `sep`.
pub fn split(text: &str, sep: char) -> (r: Vec<String>)
    ensures
        texts(r@) == split_on(text@, sep),
        r.len() > 0,
{
    let chars = chars_of(text);
    let mut done: Vec<String> = Vec::new();
    let mut current = String::new();
    let mut i: usize = 0;
    assert(chars@.take(0) =~= Seq::<char>::empty());
    assert(texts(done@).push(current@) =~= split_on(chars@.take(0), sep));
    while i < chars.len()
        invariant
            i <= chars.len(),
            texts(done@).push(current@) == split_on(chars@.take(i as int), sep),
        decreases chars.len() - i,
    {
        let c = chars[i];
        let ghost before = texts(done@).push(current@);
        proof {
            assert(chars@.take(i + 1).drop_last() =~= chars@.take(i as int));
            assert(before.drop_last() =~= texts(done@));
        }
        if c == sep {
            proof {
                lemma_texts_push(done@, current);
            }
            done.push(current);
            current = String::new();
        } else {
            current.push(c);
        }
        i += 1;
    }
    assert(chars@.take(i as int) =~= text@);
    proof {
        lemma_texts_push(done@, current);
    }
    done.push(current);
    done
}

/// `parts` in order, with `sep` between each two.
pub open spec fn joined(parts: Seq<Seq<char>>, sep: Seq<char>) -> Seq<char>
    decreases parts.len(),
{
    if parts.len() == 0 {
        Seq::empty()
    } else if parts.len() == 1 {
        parts[0]
    } else {
        joined(parts.drop_last(), sep) + sep + parts.last()
    }
}

/// Joins `parts` with `sep`.
pub fn join(parts: &Vec<String>, sep: &str) -> (r: String)
    ensures
        r@ == joined(texts(parts@), sep@),
{
    let mut out = String::new();
    let mut i: usize = 0;
    while i < parts.len()
        invariant
            i <= parts.len(),
            out@ == joined(texts(parts@).take(i as int), sep@),
        decreases parts.len() - i,
    {
        let ghost now = texts(parts@).take(i + 1);
        if i > 0 {
            out.append(sep);
        }
        out.append(parts[i].as_str());
        i += 1;
        assert(now.drop_last() =~= texts(parts@).take(i - 1));
        assert(out@ =~= joined(now, sep@));
    }
    assert(texts(parts@).take(i as int) =~= texts(parts@));
    out
}

/// `n` copies of `s` in a row.
pub open spec fn repeated(s: Seq<char>, n: nat) -> Seq<char>
    decreases n,
{
    if n == 0 {
        Seq::empty()
    } else {
        repeated(s, (n - 1) as nat) + s
    }
}

/// `n` copies of `text` in a row.
pub fn repeat(text: &str, n: usize) -> (r: String)
    ensures
        r@ == repeated(text@, n as nat),
{
    let mut out = String::new();
    let mut i: usize = 0;
    while i < n
        invariant
            i <= n,
            out@ == repeated(text@, i as nat),
        decreases n - i,
    {
        out.append(text);
        i += 1;
    }
    out
}

/// `s`, filled up with spaces behind it to `width` characters.
pub open spec fn padded(s: Seq<char>, width: nat) -> Seq<char> {
    if s.len() >= width {
        s
    } else {
        s + repeated(seq![' '], (width - s.len()) as nat)
    }
}

/// `s`, filled up with spaces before it to `width` characters.
pub open spec fn padded_left(s: Seq<char>, width: nat) -> Seq<char> {
    if s.len() >= width {
        s
    } else {
        repeated(seq![' '], (width - s.len()) as nat) + s
    }
}

/// Left-aligns `text` in `width` characters.
pub fn pad(text: &str, width: usize) -> (r: String)
    ensures
        r@ == padded(text@, width as nat),
{
    let n = text.unicode_len();
    let mut out: String = text.to_owned();
    if n < width {
        proof {
            reveal_strlit(" ");
            assert(" "@ =~= seq![' ']);
        }
        out.append(repeat(" ", width - n).as_str());
    }
    out
}

/// Right-aligns `text` in `width` characters.
pub fn pad_left(text: &str, width: usize) -> (r: String)
    ensures
        r@ == padded_left(text@, width as nat),
{
    let n = text.unicode_len();
    if n < width {
        proof {
            reveal_strlit(" ");
            assert(" "@ =~= seq![' ']);
        }
        let mut out = repeat(" ", width - n);
        out.append(text);
        out
    } else {
        text.to_owned()
    }
}

/// An ASCII capital letter's small form; any other character itself.
pub open spec fn lower(c: char) -> char {
    if 'A' <= c <= 'Z' {
        ((c as u8) + 32) as char
    } else {
        c
    }
}

/// `s` with its ASCII capital letters made small.
pub open spec fn lowered(s: Seq<char>) -> Seq<char> {
    Seq::new(s.len(), |i: int| lower(s[i]))
}

/// `text` with its ASCII capital letters made small.
pub fn to_lower(text: &str) -> (r: String)
    ensures
        r@ == lowered(text@),
{
    let chars = chars_of(text);
    let mut out = String::new();
    let mut i: usize = 0;
    while i < chars.len()
        invariant
            i <= chars.len(),
            out@ == lowered(chars@).take(i as int),
        decreases chars.len() - i,
    {
        let c = chars[i];
        if 'A' <= c && c <= 'Z' {
            out.push((c as u8 + 32) as char);
        } else {
            out.push(c);
        }
        i += 1;
        assert(lowered(chars@).take(i as int) =~= lowered(chars@).take(i - 1).push(
            lower(chars@[i - 1]),
        ));
    }
    assert(lowered(chars@).take(i as int) =~= lowered(chars@));
    out
}

/// `needle` stands in `s` at position `at`.
pub open spec fn occurs_at(s: Seq<char>, needle: Seq<char>, at: int) -> bool {
    0 <= at && at + needle.len() <= s.len() && s.subrange(at, at + needle.len()) == needle
}

/// Whether `needle` stands in `chars` at position `at`.
pub fn is_at(chars: &Vec<char>, needle: &Vec<char>, at: usize) -> (r: bool)
    ensures
        r == occurs_at(chars@, needle@, at as int),
{
    if at > chars.len() || needle.len() > chars.len() - at {
        return false;
    }
    let mut i: usize = 0;
    while i < needle.len()
        invariant
            i <= needle.len(),
            at + needle.len() <= chars.len(),
            forall|j: int| 0 <= j < i ==> chars@[at + j] == needle@[j],
        decreases needle.len() - i,
    {
        if chars[at + i] != needle[i] {
            proof {
                if occurs_at(chars@, needle@, at as int) {
                    assert(chars@.subrange(at as int, at + needle.len())[i as int]
                        == needle@[i as int]);
                }
            }
            return false;
        }
        i += 1;
    }
    assert(chars@.subrange(at as int, at + needle.len()) =~= needle@);
    true
}

/// The first position at or after `from` where `needle` stands in `chars`.
pub fn find_from(chars: &Vec<char>, needle: &Vec<char>, from: usize) -> (r: Option<usize>)
    ensures
        match r {
            Some(at) => from <= at && occurs_at(chars@, needle@, at as int) && forall|j: int|
                from <= j < at ==> !occurs_at(chars@, needle@, j),
            None => forall|j: int| from <= j ==> !occurs_at(chars@, needle@, j),
        },
{
    let mut i: usize = from;
    while i < chars.len()
        invariant
            from <= i,
            forall|j: int| from <= j < i ==> !occurs_at(chars@, needle@, j),
        decreases chars.len() - i,
    {
        if is_at(chars, needle, i) {
            return Some(i);
        }
        i += 1;
    }
    if is_at(chars, needle, i) {
        return Some(i);
    }
    if i == chars.len() && needle.len() == 0 {
        assert(chars@.subrange(i as int, i as int) =~= needle@);
        assert(occurs_at(chars@, needle@, i as int));
    }
    None
}

/// The first place where `needle` stands in `s` from position `from` on.
pub open spec fn first_place(s: Seq<char>, needle: Seq<char>, from: int) -> int
    decreases s.len() + 1 - from,
{
    if from < 0 || from + needle.len() > s.len() {
        s.len() as int
    } else if occurs_at(s, needle, from) {
        from
    } else {
        first_place(s, needle, from + 1)
    }
}

/// The first place is where `needle` stands, and before it there is none.
pub proof fn lemma_first_place(s: Seq<char>, needle: Seq<char>, from: int, at: int)
    requires
        0 <= from <= at,
        occurs_at(s, needle, at),
        forall|j: int| from <= j < at ==> !occurs_at(s, needle, j),
    ensures
        first_place(s, needle, from) == at,
    decreases at - from,
{
    if from < at {
        lemma_first_place(s, needle, from + 1, at);
    }
}

/// Where `needle` stands nowhere, there is no first place.
pub proof fn lemma_no_place(s: Seq<char>, needle: Seq<char>, from: int)
    requires
        0 <= from,
        forall|j: int| from <= j ==> !occurs_at(s, needle, j),
    ensures
        first_place(s, needle, from) == s.len(),
    decreases s.len() + 1 - from,
{
    if from + needle.len() <= s.len() {
        lemma_no_place(s, needle, from + 1);
    }
}

/// Where `needle` first stands in `chars`, if it does.
pub fn find(chars: &Vec<char>, needle: &Vec<char>) -> (r: Option<usize>)
    requires
        needle@.len() > 0,
    ensures
        match r {
            Some(at) => at == first_place(chars@, needle@, 0) && at + needle@.len() <= chars@.len(),
            None => first_place(chars@, needle@, 0) == chars@.len(),
        },
{
    match find_from(chars, needle, 0) {
        Some(at) => {
            proof {
                lemma_first_place(chars@, needle@, 0, at as int);
            }
            Some(at)
        },
        None => {
            proof {
                lemma_no_place(chars@, needle@, 0);
            }
            None
        },
    }
}

/// `s` without the `c`s at its beginning.
pub open spec fn stripped_start(s: Seq<char>, c: char) -> Seq<char>
    decreases s.len(),
{
    if s.len() > 0 && s[0] == c {
        stripped_start(s.drop_first(), c)
    } else {
        s
    }
}

/// `s` without the `c`s at its end.
pub open spec fn stripped_end(s: Seq<char>, c: char) -> Seq<char>
    decreases s.len(),
{
    if s.len() > 0 && s.last() == c {
        stripped_end(s.drop_last(), c)
    } else {
        s
    }
}

/// `s` without the `c`s at its two ends.
pub open spec fn stripped(s: Seq<char>, c: char) -> Seq<char> {
    stripped_end(stripped_start(s, c), c)
}

/// `text` without the `c`s at its end.
pub fn strip_end(text: &str, c: char) -> (r: String)
    ensures
        r@ == stripped_end(text@, c),
{
    let chars = chars_of(text);
    let mut to: usize = chars.len();
    assert(chars@.take(to as int) =~= text@);
    while to > 0 && chars[to - 1] == c
        invariant
            to <= chars.len(),
            stripped_end(chars@.take(to as int), c) == stripped_end(text@, c),
        decreases to,
    {
        assert(chars@.take(to as int).drop_last() =~= chars@.take(to - 1));
        to -= 1;
    }
    assert(chars@.subrange(0, to as int) =~= chars@.take(to as int));
    string_of(&chars, 0, to)
}

/// `text` without the `c`s at its two ends.
pub fn strip(text: &str, c: char) -> (r: String)
    ensures
        r@ == stripped(text@, c),
{
    let chars = chars_of(text);
    let mut from: usize = 0;
    assert(chars@.skip(0) =~= text@);
    while from < chars.len() && chars[from] == c
        invariant
            from <= chars.len(),
            stripped_start(chars@.skip(from as int), c) == stripped_start(text@, c),
        decreases chars.len() - from,
    {
        assert(chars@.skip(from as int).drop_first() =~= chars@.skip(from + 1));
        from += 1;
    }
    assert(chars@.subrange(from as int, chars@.len() as int) =~= chars@.skip(from as int));
    strip_end(string_of(&chars, from, chars.len()).as_str(), c)
}

/// How many bytes a character takes in UTF-8.
pub open spec fn char_bytes(c: char) -> nat {
    if c <= '\u{7f}' {
        1
    } else if c <= '\u{7ff}' {
        2
    } else if c <= '\u{ffff}' {
        3
    } else {
        4
    }
}

/// How many bytes a text takes in UTF-8.
pub open spec fn byte_len(s: Seq<char>) -> nat
    decreases s.len(),
{
    if s.len() == 0 {
        0
    } else {
        char_bytes(s[0]) + byte_len(s.drop_first())
    }
}

proof fn lemma_char_bytes_encoded(c: char)
    ensures
        vstd::utf8::encode_scalar(c as u32).len() == char_bytes(c),
{
    let v = c as u32;
    vstd::utf8::char_is_scalar(c);
    if v <= 0x7f {
        assert(vstd::utf8::has_width_1_encoding(v));
    } else if v <= 0x7ff {
        assert(vstd::utf8::has_width_2_encoding(v));
    } else if v <= 0xffff {
        assert(vstd::utf8::has_width_3_encoding(v));
    } else {
        assert(vstd::utf8::has_width_4_encoding(v));
    }
}

proof fn lemma_byte_len_encoded(s: Seq<char>)
    ensures
        vstd::utf8::encode_utf8(s).len() == byte_len(s),
    decreases s.len(),
{
    if s.len() > 0 {
        lemma_byte_len_encoded(s.drop_first());
        lemma_char_bytes_encoded(s[0]);
    }
}

/// The bytes of two texts in a row.
pub proof fn lemma_byte_len_concat(a: Seq<char>, b: Seq<char>)
    ensures
        byte_len(a + b) == byte_len(a) + byte_len(b),
    decreases a.len(),
{
    if a.len() == 0 {
        assert(a + b =~= b);
    } else {
        lemma_byte_len_concat(a.drop_first(), b);
        assert((a + b).drop_first() =~= a.drop_first() + b);
    }
}

/// The bytes of a text with one more character.
pub proof fn lemma_byte_len_push(s: Seq<char>, c: char)
    ensures
        byte_len(s.push(c)) == byte_len(s) + char_bytes(c),
{
    lemma_byte_len_concat(s, seq![c]);
    assert(s + seq![c] =~= s.push(c));
    assert(seq![c].drop_first() =~= Seq::<char>::empty());
    assert(byte_len(seq![c]) == char_bytes(c)) by {
        reveal_with_fuel(byte_len, 2);
    }
}

/// A stretch of a text has no more bytes than the text.
pub proof fn lemma_byte_len_part(s: Seq<char>, k: int)
    requires
        0 <= k <= s.len(),
    ensures
        byte_len(s.take(k)) + byte_len(s.skip(k)) == byte_len(s),
{
    lemma_byte_len_concat(s.take(k), s.skip(k));
    assert(s.take(k) + s.skip(k) =~= s);
}

/// A text of characters that take one byte each takes as many bytes as it has
/// characters.
pub proof fn lemma_byte_len_plain(s: Seq<char>)
    requires
        forall|i: int| 0 <= i < s.len() ==> char_bytes(#[trigger] s[i]) == 1,
    ensures
        byte_len(s) == s.len(),
    decreases s.len(),
{
    if s.len() > 0 {
        let rest = s.drop_first();
        assert forall|i: int| 0 <= i < rest.len() implies char_bytes(#[trigger] rest[i]) == 1 by {
            assert(rest[i] == s[i + 1]);
        }
        lemma_byte_len_plain(rest);
    }
}

/// Ten to the power of `k`.
pub open spec fn ten_to(k: nat) -> nat
    decreases k,
{
    if k == 0 {
        1
    } else {
        10 * ten_to((k - 1) as nat)
    }
}

/// A number below ten to the power of `k` takes at most `k` bytes.
pub proof fn lemma_decimal_bytes(n: nat, k: nat)
    requires
        k > 0,
        n < ten_to(k),
    ensures
        byte_len(decimal(n)) <= k,
    decreases k,
{
    let last = digit(n % 10);
    assert(char_bytes(last) == 1);
    if n < 10 {
        assert(decimal(n) =~= Seq::<char>::empty().push(last));
        lemma_byte_len_push(Seq::empty(), last);
    } else {
        if k == 1 {
            reveal_with_fuel(ten_to, 2);
        }
        lemma_decimal_bytes(n / 10, (k - 1) as nat);
        lemma_byte_len_push(decimal(n / 10), last);
    }
}

/// How many bytes a text takes in UTF-8.
pub fn byte_count(text: &str) -> (r: usize)
    ensures
        r == byte_len(text@),
{
    proof {
        lemma_byte_len_encoded(text@);
    }
    text.as_bytes().len()
}

/// How many bytes a character takes in UTF-8.
pub fn char_byte_count(c: char) -> (r: usize)
    ensures
        r == char_bytes(c),
        1 <= r <= 4,
{
    if c <= '\u{7f}' {
        1
    } else if c <= '\u{7ff}' {
        2
    } else if c <= '\u{ffff}' {
        3
    } else {
        4
    }
}

/// The stretches of `s` between its white space.
pub open spec fn words(s: Seq<char>) -> Seq<Seq<char>>
    decreases s.len(),
{
    if s.len() == 0 {
        Seq::empty()
    } else {
        let before = words(s.drop_last());
        let c = s.last();
        if whitespace(c) {
            before
        } else if s.len() >= 2 && !whitespace(s[s.len() - 2]) {
            before.drop_last().push(before.last().push(c))
        } else {
            before.push(seq![c])
        }
    }
}

/// The stretches of `text` between its white space.
pub fn words_of(text: &str) -> (r: Vec<String>)
    ensures
        texts(r@) == words(text@),
{
    let chars = chars_of(text);
    let mut out: Vec<String> = Vec::new();
    let mut current = String::new();
    let mut i: usize = 0;
    assert(chars@.take(0) =~= Seq::<char>::empty());
    assert(texts(out@) =~= Seq::<Seq<char>>::empty());
    while i < chars.len()
        invariant
            i <= chars.len(),
            if i == 0 || whitespace(chars@[i - 1]) {
                current@.len() == 0 && texts(out@) == words(chars@.take(i as int))
            } else {
                texts(out@).push(current@) == words(chars@.take(i as int))
            },
        decreases chars.len() - i,
    {
        let c = chars[i];
        proof {
            let now = chars@.take(i + 1);
            assert(now.drop_last() =~= chars@.take(i as int));
            assert(now.last() == c);
            assert(i > 0 ==> now[now.len() - 2] == chars@[i - 1]);
            assert(texts(out@).push(current@).drop_last() =~= texts(out@));
            assert(current@.len() == 0 ==> current@.push(c) =~= seq![c]);
        }
        if is_whitespace(c) {
            if i > 0 && !is_whitespace(chars[i - 1]) {
                proof {
                    lemma_texts_push(out@, current);
                }
                out.push(current);
                current = String::new();
            }
        } else {
            current.push(c);
        }
        i += 1;
    }
    assert(chars@.take(i as int) =~= text@);
    if chars.len() > 0 && !is_whitespace(chars[chars.len() - 1]) {
        proof {
            lemma_texts_push(out@, current);
        }
        out.push(current);
    }
    out
}

/// `s` with every `old` in it replaced, from the front on.
pub open spec fn swapped(s: Seq<char>, old: Seq<char>, new: Seq<char>) -> Seq<char>
    decreases s.len(),
{
    if old.len() == 0 || s.len() < old.len() {
        s
    } else if begins(s, old) {
        new + swapped(s.skip(old.len() as int), old, new)
    } else {
        seq![s[0]] + swapped(s.drop_first(), old, new)
    }
}

/// `text` with every `old` in it replaced.
pub fn swap_all(text: &str, old: &str, new: &str) -> (r: String)
    requires
        old@.len() > 0,
    ensures
        r@ == swapped(text@, old@, new@),
{
    let chars = chars_of(text);
    let pattern = chars_of(old);
    let mut out = String::new();
    let mut i: usize = 0;
    assert(chars@.skip(0) =~= chars@);
    while i < chars.len()
        invariant
            i <= chars.len(),
            chars@ == text@,
            pattern@ == old@,
            old@.len() > 0,
            out@ + swapped(chars@.skip(i as int), old@, new@) == swapped(text@, old@, new@),
        decreases chars.len() - i,
    {
        let ghost rest = chars@.skip(i as int);
        proof {
            assert(rest.len() >= old@.len() ==> rest.take(old@.len() as int) =~= chars@.subrange(
                i as int,
                i + old@.len(),
            ));
        }
        if is_at(&chars, &pattern, i) {
            let width: usize = pattern.len();
            let total: usize = chars.len();
            assert(i + width <= total);
            proof {
                assert(begins(rest, old@));
                assert(rest.skip(old@.len() as int) =~= chars@.skip(i + width));
                assert(out@ + (new@ + swapped(chars@.skip(i + width), old@, new@)) =~= (out@ + new@)
                    + swapped(chars@.skip(i + width), old@, new@));
            }
            out.append(new);
            i += width;
        } else {
            proof {
                assert(!begins(rest, old@));
                assert(rest.drop_first() =~= chars@.skip(i + 1));
                if rest.len() < old@.len() {
                    assert(swapped(chars@.skip(i + 1), old@, new@) == chars@.skip(i + 1));
                    assert(rest =~= seq![rest[0]] + chars@.skip(i + 1));
                }
                assert(out@ + (seq![rest[0]] + swapped(chars@.skip(i + 1), old@, new@)) =~= out@.push(
                    rest[0],
                ) + swapped(chars@.skip(i + 1), old@, new@));
            }
            out.push(chars[i]);
            i += 1;
        }
    }
    assert(out@ + swapped(chars@.skip(i as int), old@, new@) =~= out@);
    out
}

/// A line without the carriage return at its end.
pub open spec fn without_return(line: Seq<char>) -> Seq<char> {
    if line.len() > 0 && line.last() == '\r' {
        line.drop_last()
    } else {
        line
    }
}

/// The lines of a text: what stands between its newlines, each without a
/// carriage return before its newline; an empty last one does not count.
pub open spec fn line_list(s: Seq<char>) -> Seq<Seq<char>> {
    let parts = split_on(s, '\n');
    let ended = parts.drop_last().map_values(|line: Seq<char>| without_return(line));
    if parts.last().len() == 0 {
        ended
    } else {
        ended.push(parts.last())
    }
}

/// The lines of a text.
pub fn lines_of_text(text: &str) -> (r: Vec<String>)
    ensures
        texts(r@) == line_list(text@),
{
    let parts = split(text, '\n');
    let ghost all = texts(parts@);
    let last: usize = parts.len() - 1;
    let ghost ended = all.drop_last().map_values(|line: Seq<char>| without_return(line));
    let mut out: Vec<String> = Vec::new();
    let mut i: usize = 0;
    while i < last
        invariant
            i <= last,
            last == parts.len() - 1,
            all == texts(parts@),
            ended == all.drop_last().map_values(|line: Seq<char>| without_return(line)),
            texts(out@) == ended.take(i as int),
        decreases last - i,
    {
        let chars = chars_of(parts[i].as_str());
        let line = if chars.len() > 0 && chars[chars.len() - 1] == '\r' {
            string_of(&chars, 0, chars.len() - 1)
        } else {
            parts[i].clone()
        };
        proof {
            assert(line@ =~= without_return(all[i as int]));
            lemma_texts_push(out@, line);
        }
        out.push(line);
        i += 1;
        assert(ended.take(i as int) =~= ended.take(i - 1).push(ended[i - 1]));
    }
    assert(ended.take(i as int) =~= ended);
    assert(all.last() == parts@[last as int]@);
    if !parts[last].as_str().is_empty() {
        proof {
            lemma_texts_push(out@, parts@[last as int]);
        }
        out.push(parts[last].clone());
    }
    out
}

} // verus!
