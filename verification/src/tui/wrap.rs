//! Breaking styled text into lines of a width.
use crate::text::{chars_of, is_whitespace, repeat, repeated, string_of, whitespace};
use crate::tui::style::{
    coloured, extend, extended, lemma_extended_text, line_of, line_views, patched, span_views,
    text_of, Color, Line, LineView, Span, SpanView, Style,
};
use vstd::prelude::*;

verus! {

/// How many columns a text takes on a terminal, by
/// `unicode_width::UnicodeWidthStr::width`.
pub uninterp spec fn text_width(text: Seq<char>) -> usize;

/// `unicode_width::UnicodeWidthStr::width` of a text.
#[verifier::external_body]
pub(crate) fn width_of(text: &str) -> (r: usize)
    ensures
        r == text_width(text@),
{
    unicode_width::UnicodeWidthStr::width(text)
}

/// How many columns a character takes on a terminal, by
/// `unicode_width::UnicodeWidthChar::width`; none for a control character.
pub uninterp spec fn char_width(c: char) -> Option<usize>;

/// `unicode_width::UnicodeWidthChar::width` of a character.
#[verifier::external_body]
pub(crate) fn char_width_of(c: char) -> (r: Option<usize>)
    ensures
        r == char_width(c),
{
    unicode_width::UnicodeWidthChar::width(c)
}

/// How many columns a character takes; a control character takes none.
pub open spec fn columns(c: char) -> usize {
    match char_width(c) {
        Some(n) => n,
        None => 0,
    }
}

/// How many columns a character takes.
pub fn columns_of(c: char) -> (r: usize)
    ensures
        r == columns(c),
{
    match char_width_of(c) {
        Some(n) => n,
        None => 0,
    }
}

/// A difference, or nothing.
pub open spec fn less(a: usize, b: usize) -> usize {
    if a > b {
        (a - b) as usize
    } else {
        0
    }
}

/// A sum, or the greatest number.
pub open spec fn more(a: usize, b: usize) -> usize {
    if a + b > usize::MAX {
        usize::MAX
    } else {
        (a + b) as usize
    }
}

/// The greater of a number and one.
pub open spec fn at_least_one(n: usize) -> usize {
    if n == 0 {
        1
    } else {
        n
    }
}

/// A line before it is broken: its stretches of text, what stands before it and
/// before its other parts, and whether all its space is kept. A rule has no
/// text.
#[derive(Debug)]
pub struct RichLine {
    pub spans: Vec<Span>,
    pub first_prefix: String,
    pub continuation_prefix: String,
    pub preserve_whitespace: bool,
    pub rule: bool,
}

/// The view of a line before it is broken.
#[verifier::ext_equal]
pub struct RichView {
    pub spans: Seq<SpanView>,
    pub first: Seq<char>,
    pub continuation: Seq<char>,
    pub keep: bool,
    pub rule: bool,
}

impl View for RichLine {
    type V = RichView;

    open spec fn view(&self) -> RichView {
        RichView {
            spans: span_views(self.spans@),
            first: self.first_prefix@,
            continuation: self.continuation_prefix@,
            keep: self.preserve_whitespace,
            rule: self.rule,
        }
    }
}

/// The views of lines before they are broken.
pub open spec fn rich_views(v: Seq<RichLine>) -> Seq<RichView> {
    v.map_values(|l: RichLine| l@)
}

/// A line without text.
pub open spec fn is_blank_line(l: RichView) -> bool {
    l.spans.len() == 0 && !l.rule
}

/// The style of what stands before a line.
pub open spec fn margin(base: Style) -> Style {
    patched(base, coloured(Color::DarkGray))
}

/// A line that is being filled: its stretches of text, and how many columns its
/// text and what stands before it take.
#[verifier::ext_equal]
pub struct BuilderView {
    pub spans: Seq<SpanView>,
    pub body: usize,
    pub prefix: usize,
}

/// A line that begins.
pub open spec fn begun(prefix: Seq<char>, base: Style) -> BuilderView {
    BuilderView {
        spans: if prefix.len() == 0 {
            Seq::empty()
        } else {
            seq![SpanView { content: prefix, style: margin(base) }]
        },
        body: 0,
        prefix: text_width(prefix),
    }
}

/// How many columns are left in a line.
pub open spec fn room(b: BuilderView, width: usize) -> usize {
    less(less(width, b.prefix), b.body)
}

/// A line with more text.
pub open spec fn filled(b: BuilderView, text: Seq<char>, style: Style) -> BuilderView {
    if text.len() == 0 {
        b
    } else {
        BuilderView {
            spans: extended(b.spans, text, style),
            body: more(b.body, text_width(text)),
            ..b
        }
    }
}

/// What holds of all lines: their width, what stands before the other parts of
/// a line, and the style below.
#[verifier::ext_equal]
pub struct FrameView {
    pub width: usize,
    pub continuation: Seq<char>,
    pub base: Style,
}

/// The lines that are full, and the one that is being filled.
#[verifier::ext_equal]
pub struct WrapView {
    pub builder: BuilderView,
    pub output: Seq<LineView>,
}

/// The line is full, and the next one begins.
pub open spec fn turned(w: WrapView, f: FrameView) -> WrapView {
    WrapView {
        builder: begun(f.continuation, f.base),
        output: w.output.push(line_of(w.builder.spans)),
    }
}

/// One more character: on the next line where there is no room for it. Space
/// at the beginning of a line goes, unless it is kept.
pub open spec fn put_char(w: WrapView, f: FrameView, c: char, style: Style, keep: bool) -> WrapView {
    let next = if columns(c) > room(w.builder, f.width) && w.builder.body > 0 {
        turned(w, f)
    } else {
        w
    };
    if !keep && next.builder.body == 0 && whitespace(c) {
        next
    } else {
        WrapView { builder: filled(next.builder, seq![c], style), ..next }
    }
}

/// More characters, one by one.
pub open spec fn put_chars(
    w: WrapView,
    f: FrameView,
    text: Seq<char>,
    style: Style,
    keep: bool,
) -> WrapView
    decreases text.len(),
{
    if text.len() == 0 {
        w
    } else {
        put_char(put_chars(w, f, text.drop_last(), style, keep), f, text.last(), style, keep)
    }
}

/// One more word: as a whole where a line has room for it, and character by
/// character otherwise.
pub open spec fn put_word(w: WrapView, f: FrameView, word: Seq<char>, style: Style) -> WrapView {
    let needed = text_width(word);
    let capacity = at_least_one(less(f.width, text_width(f.continuation)));
    if needed <= room(w.builder, f.width) {
        WrapView { builder: filled(w.builder, word, style), ..w }
    } else if w.builder.body > 0 && needed <= capacity {
        let next = turned(w, f);
        WrapView { builder: filled(next.builder, word, style), ..next }
    } else {
        put_chars(w, f, word, style, false)
    }
}

/// The words of a text and the space between them.
pub open spec fn tokens(text: Seq<char>) -> Seq<(Seq<char>, bool)>
    decreases text.len(),
{
    if text.len() == 0 {
        Seq::empty()
    } else {
        let rest = tokens(text.drop_last());
        let c = text.last();
        if rest.len() > 0 && rest.last().1 == whitespace(c) {
            rest.drop_last().push((rest.last().0.push(c), whitespace(c)))
        } else {
            rest.push((seq![c], whitespace(c)))
        }
    }
}

/// One more word, or the space behind one.
pub open spec fn put_token(
    w: WrapView,
    f: FrameView,
    token: (Seq<char>, bool),
    style: Style,
    keep: bool,
) -> WrapView {
    if keep {
        put_chars(w, f, token.0, style, true)
    } else if token.1 {
        if w.builder.body == 0 {
            w
        } else {
            put_chars(w, f, token.0, style, false)
        }
    } else {
        put_word(w, f, token.0, style)
    }
}

/// More words and the space between them.
pub open spec fn put_tokens(
    w: WrapView,
    f: FrameView,
    list: Seq<(Seq<char>, bool)>,
    style: Style,
    keep: bool,
) -> WrapView
    decreases list.len(),
{
    if list.len() == 0 {
        w
    } else {
        put_token(put_tokens(w, f, list.drop_last(), style, keep), f, list.last(), style, keep)
    }
}

/// More stretches of text.
pub open spec fn put_spans(w: WrapView, f: FrameView, spans: Seq<SpanView>, keep: bool) -> WrapView
    decreases spans.len(),
{
    if spans.len() == 0 {
        w
    } else {
        put_tokens(
            put_spans(w, f, spans.drop_last(), keep),
            f,
            tokens(spans.last().content),
            spans.last().style,
            keep,
        )
    }
}

/// The lines that a line is broken into.
pub open spec fn broken(l: RichView, width: usize, base: Style) -> Seq<LineView> {
    if l.rule {
        seq![
            line_of(
                seq![
                    SpanView { content: l.first, style: margin(base) },
                    SpanView {
                        content: repeated(
                            "─"@,
                            at_least_one(less(width, text_width(l.first))) as nat,
                        ),
                        style: margin(base),
                    },
                ],
            ),
        ]
    } else if l.spans.len() == 0 {
        seq![line_of(Seq::empty())]
    } else {
        let w = put_spans(
            WrapView { builder: begun(l.first, base), output: Seq::empty() },
            FrameView { width, continuation: l.continuation, base },
            l.spans,
            l.keep,
        );
        w.output.push(line_of(w.builder.spans))
    }
}

struct LineBuilder {
    spans: Vec<Span>,
    body_width: usize,
    prefix_width: usize,
}

impl View for LineBuilder {
    type V = BuilderView;

    closed spec fn view(&self) -> BuilderView {
        BuilderView {
            spans: span_views(self.spans@),
            body: self.body_width,
            prefix: self.prefix_width,
        }
    }
}

impl LineBuilder {
    fn new(prefix: &str, base_style: Style) -> (r: Self)
        ensures
            r@ == begun(prefix@, base_style),
    {
        let mut spans: Vec<Span> = Vec::new();
        if !prefix.is_empty() {
            spans.push(Span::of(prefix, base_style.patch(Style::colour(Color::DarkGray))));
        }
        let out = LineBuilder { spans, body_width: 0, prefix_width: width_of(prefix) };
        assert(out@.spans =~= begun(prefix@, base_style).spans);
        out
    }

    fn remaining(&self, width: usize) -> (r: usize)
        ensures
            r == room(self@, width),
    {
        width.saturating_sub(self.prefix_width).saturating_sub(self.body_width)
    }

    fn append(&mut self, text: &str, style: Style)
        ensures
            final(self)@ == filled(old(self)@, text@, style),
    {
        if text.is_empty() {
            return;
        }
        self.body_width = self.body_width.saturating_add(width_of(text));
        extend(&mut self.spans, text, style);
    }
}

struct Frame {
    width: usize,
    continuation: String,
    base: Style,
}

impl View for Frame {
    type V = FrameView;

    closed spec fn view(&self) -> FrameView {
        FrameView { width: self.width, continuation: self.continuation@, base: self.base }
    }
}

struct Wrapping {
    builder: LineBuilder,
    output: Vec<Line>,
}

impl View for Wrapping {
    type V = WrapView;

    closed spec fn view(&self) -> WrapView {
        WrapView { builder: self.builder@, output: line_views(self.output@) }
    }
}

impl Wrapping {
    /// Ends the line, and begins the next one.
    fn turn(&mut self, f: &Frame)
        ensures
            final(self)@ == turned(old(self)@, f@),
    {
        let mut next = LineBuilder::new(f.continuation.as_str(), f.base);
        std::mem::swap(&mut self.builder, &mut next);
        let line = Line::new(next.spans);
        assert(line_views(self.output@.push(line)) =~= line_views(self.output@).push(line@));
        self.output.push(line);
    }

    fn append_characters(&mut self, f: &Frame, text: &Vec<char>, style: Style, keep: bool)
        ensures
            final(self)@ == put_chars(old(self)@, f@, text@, style, keep),
    {
        let ghost w = self@;
        let mut i: usize = 0;
        assert(text@.take(0) =~= Seq::<char>::empty());
        while i < text.len()
            invariant
                i <= text.len(),
                w == old(self)@,
                self@ == put_chars(w, f@, text@.take(i as int), style, keep),
            decreases text.len() - i,
        {
            let c = text[i];
            let ghost before = self@;
            if columns_of(c) > self.builder.remaining(f.width) && self.builder.body_width > 0 {
                self.turn(f);
            }
            if keep || self.builder.body_width != 0 || !is_whitespace(c) {
                let one = string_of(text, i, i + 1);
                assert(text@.subrange(i as int, i + 1) =~= seq![c]);
                self.builder.append(one.as_str(), style);
            }
            assert(self@ =~= put_char(before, f@, c, style, keep));
            proof {
                let now = text@.take(i + 1);
                assert(now.drop_last() =~= text@.take(i as int));
                assert(now.last() == c);
            }
            i += 1;
        }
        assert(text@.take(i as int) =~= text@);
    }

    fn append_word(&mut self, f: &Frame, word: &Vec<char>, style: Style)
        ensures
            final(self)@ == put_word(old(self)@, f@, word@, style),
    {
        let text = string_of(word, 0, word.len());
        assert(word@.subrange(0, word@.len() as int) =~= word@);
        let needed: usize = width_of(text.as_str());
        let mut capacity: usize = f.width.saturating_sub(width_of(f.continuation.as_str()));
        if capacity == 0 {
            capacity = 1;
        }
        if needed <= self.builder.remaining(f.width) {
            self.builder.append(text.as_str(), style);
            return;
        }
        if self.builder.body_width > 0 && needed <= capacity {
            self.turn(f);
            self.builder.append(text.as_str(), style);
            return;
        }
        self.append_characters(f, word, style, false);
    }

    fn append_token(&mut self, f: &Frame, token: &Token, style: Style, keep: bool)
        ensures
            final(self)@ == put_token(old(self)@, f@, token@, style, keep),
    {
        if keep {
            self.append_characters(f, &token.text, style, true);
        } else if token.space {
            if self.builder.body_width != 0 {
                self.append_characters(f, &token.text, style, false);
            }
        } else {
            self.append_word(f, &token.text, style);
        }
    }

    fn append_span(&mut self, f: &Frame, span: &Span, keep: bool)
        ensures
            final(self)@ == put_tokens(
                old(self)@,
                f@,
                tokens(span@.content),
                span@.style,
                keep,
            ),
    {
        let ghost w = self@;
        let list = tokens_of(span.content.as_str());
        let ghost all = token_views(list@);
        let mut i: usize = 0;
        assert(all.take(0) =~= Seq::<(Seq<char>, bool)>::empty());
        while i < list.len()
            invariant
                i <= list.len(),
                all == token_views(list@),
                w == old(self)@,
                self@ == put_tokens(w, f@, all.take(i as int), span@.style, keep),
            decreases list.len() - i,
        {
            self.append_token(f, &list[i], span.style, keep);
            proof {
                let now = all.take(i + 1);
                assert(now.drop_last() =~= all.take(i as int));
                assert(now.last() == list@[i as int]@);
            }
            i += 1;
        }
        assert(all.take(i as int) =~= all);
    }
}

struct Token {
    text: Vec<char>,
    space: bool,
}

impl View for Token {
    type V = (Seq<char>, bool);

    closed spec fn view(&self) -> (Seq<char>, bool) {
        (self.text@, self.space)
    }
}

spec fn token_views(v: Seq<Token>) -> Seq<(Seq<char>, bool)> {
    v.map_values(|t: Token| t@)
}

/// The words of a text and the space between them.
fn tokens_of(text: &str) -> (r: Vec<Token>)
    ensures
        token_views(r@) == tokens(text@),
{
    let chars = chars_of(text);
    let ghost all = chars@;
    let mut out: Vec<Token> = Vec::new();
    let mut i: usize = 0;
    assert(token_views(out@) =~= tokens(all.take(0)));
    while i < chars.len()
        invariant
            i <= chars.len(),
            chars@ == all,
            token_views(out@) == tokens(all.take(i as int)),
        decreases chars.len() - i,
    {
        let c = chars[i];
        let space = is_whitespace(c);
        let ghost rest = token_views(out@);
        proof {
            let now = all.take(i + 1);
            assert(now.drop_last() =~= all.take(i as int));
            assert(now.last() == c);
        }
        let goes_on = match out.pop() {
            Some(mut last) => {
                assert(rest.last() == last@);
                assert(token_views(out@) =~= rest.drop_last());
                if last.space == space {
                    last.text.push(c);
                    assert(token_views(out@.push(last)) =~= token_views(out@).push(last@));
                    out.push(last);
                    true
                } else {
                    assert(token_views(out@.push(last)) =~= token_views(out@).push(last@));
                    out.push(last);
                    assert(token_views(out@) =~= rest);
                    false
                }
            },
            None => false,
        };
        if !goes_on {
            let mut one: Vec<char> = Vec::new();
            one.push(c);
            let token = Token { text: one, space };
            assert(one@ =~= seq![c]);
            assert(token_views(out@.push(token)) =~= token_views(out@).push(token@));
            out.push(token);
        }
        i += 1;
    }
    assert(all.take(i as int) =~= all);
    out
}

/// Breaks a line into lines of a width.
pub fn wrap_line(line: &RichLine, width: usize, base_style: Style) -> (r: Vec<Line>)
    ensures
        line_views(r@) == broken(line@, width, base_style),
{
    if line.rule {
        let style = base_style.patch(Style::colour(Color::DarkGray));
        let mut rule_width: usize = width.saturating_sub(width_of(line.first_prefix.as_str()));
        if rule_width == 0 {
            rule_width = 1;
        }
        let mut spans: Vec<Span> = Vec::new();
        spans.push(Span::of(line.first_prefix.as_str(), style));
        spans.push(Span::new(repeat("─", rule_width), style));
        assert(span_views(spans@) =~= broken(line@, width, base_style)[0].spans);
        let mut out: Vec<Line> = Vec::new();
        out.push(Line::new(spans));
        assert(line_views(out@) =~= broken(line@, width, base_style));
        return out;
    }
    if line.spans.len() == 0 {
        let mut out: Vec<Line> = Vec::new();
        out.push(Line::blank());
        assert(line_views(out@) =~= broken(line@, width, base_style));
        return out;
    }
    let f = Frame { width, continuation: line.continuation_prefix.clone(), base: base_style };
    let mut w = Wrapping {
        builder: LineBuilder::new(line.first_prefix.as_str(), base_style),
        output: Vec::new(),
    };
    assert(line_views(w.output@) =~= Seq::<LineView>::empty());
    let ghost start = w@;
    let ghost all = line@.spans;
    let mut i: usize = 0;
    assert(all.take(0) =~= Seq::<SpanView>::empty());
    while i < line.spans.len()
        invariant
            i <= line.spans.len(),
            all == span_views(line.spans@),
            w@ == put_spans(start, f@, all.take(i as int), line.preserve_whitespace),
        decreases line.spans.len() - i,
    {
        w.append_span(&f, &line.spans[i], line.preserve_whitespace);
        proof {
            let now = all.take(i + 1);
            assert(now.drop_last() =~= all.take(i as int));
            assert(now.last() == line.spans@[i as int]@);
        }
        i += 1;
    }
    assert(all.take(i as int) =~= all);
    let last = Line::new(w.builder.spans);
    let mut out = w.output;
    assert(line_views(out@.push(last)) =~= line_views(out@).push(last@));
    out.push(last);
    out
}

/// The characters of lines, one line behind the other.
pub open spec fn all_text(lines: Seq<LineView>) -> Seq<char>
    decreases lines.len(),
{
    if lines.len() == 0 {
        Seq::empty()
    } else {
        all_text(lines.drop_last()) + text_of(lines.last().spans)
    }
}

/// The characters of a text that are not space.
pub open spec fn visible(text: Seq<char>) -> Seq<char>
    decreases text.len(),
{
    if text.len() == 0 {
        Seq::empty()
    } else if whitespace(text.last()) {
        visible(text.drop_last())
    } else {
        visible(text.drop_last()).push(text.last())
    }
}

/// The characters of the lines that are full and of the one that is being
/// filled.
pub open spec fn written(w: WrapView) -> Seq<char> {
    all_text(w.output) + text_of(w.builder.spans)
}

proof fn lemma_visible_concat(a: Seq<char>, b: Seq<char>)
    ensures
        visible(a + b) == visible(a) + visible(b),
    decreases b.len(),
{
    if b.len() == 0 {
        assert(a + b =~= a);
        assert(visible(a) + visible(b) =~= visible(a));
    } else {
        lemma_visible_concat(a, b.drop_last());
        assert((a + b).drop_last() =~= a + b.drop_last());
        assert((a + b).last() == b.last());
        if !whitespace(b.last()) {
            assert(visible(a) + visible(b) =~= (visible(a) + visible(b.drop_last())).push(
                b.last(),
            ));
        }
    }
}

proof fn lemma_turned(w: WrapView, f: FrameView)
    requires
        f.continuation.len() == 0,
    ensures
        written(turned(w, f)) == written(w),
{
    let out = turned(w, f).output;
    assert(out.drop_last() =~= w.output);
    assert(text_of(turned(w, f).builder.spans) =~= Seq::<char>::empty());
    assert(written(turned(w, f)) =~= written(w));
}

proof fn lemma_filled(w: WrapView, text: Seq<char>, style: Style)
    ensures
        written(WrapView { builder: filled(w.builder, text, style), ..w }) == written(w) + text,
{
    if text.len() > 0 {
        lemma_extended_text(w.builder.spans, text, style);
        assert(written(WrapView { builder: filled(w.builder, text, style), ..w })
            =~= all_text(w.output) + (text_of(w.builder.spans) + text));
    }
    assert(written(w) + text =~= all_text(w.output) + (text_of(w.builder.spans) + text));
    if text.len() == 0 {
        assert(written(w) + text =~= written(w));
    }
}

proof fn lemma_put_chars(w: WrapView, f: FrameView, text: Seq<char>, style: Style, keep: bool)
    requires
        f.continuation.len() == 0,
    ensures
        keep ==> written(put_chars(w, f, text, style, keep)) == written(w) + text,
        visible(written(put_chars(w, f, text, style, keep))) == visible(written(w)) + visible(
            text,
        ),
    decreases text.len(),
{
    if text.len() == 0 {
        assert(written(w) + text =~= written(w));
        assert(visible(written(w)) + visible(text) =~= visible(written(w)));
    } else {
        let before = put_chars(w, f, text.drop_last(), style, keep);
        let c = text.last();
        lemma_put_chars(w, f, text.drop_last(), style, keep);
        lemma_turned(before, f);
        let next = if columns(c) > room(before.builder, f.width) && before.builder.body > 0 {
            turned(before, f)
        } else {
            before
        };
        lemma_filled(next, seq![c], style);
        let one = seq![c];
        lemma_visible_concat(written(next), one);
        assert(one.drop_last() =~= Seq::<char>::empty());
        assert(visible(one) =~= if whitespace(c) {
            Seq::empty()
        } else {
            one
        }) by {
            reveal_with_fuel(visible, 2);
        }
        assert(written(w) + text =~= (written(w) + text.drop_last()) + one);
        if whitespace(c) {
            assert(visible(written(next)) + Seq::<char>::empty() =~= visible(written(next)));
        } else {
            assert(visible(written(w)) + visible(text) =~= (visible(written(w)) + visible(
                text.drop_last(),
            )) + one);
        }
    }
}

proof fn lemma_put_word(w: WrapView, f: FrameView, word: Seq<char>, style: Style)
    requires
        f.continuation.len() == 0,
    ensures
        visible(written(put_word(w, f, word, style))) == visible(written(w)) + visible(word),
{
    lemma_turned(w, f);
    lemma_filled(w, word, style);
    lemma_filled(turned(w, f), word, style);
    lemma_visible_concat(written(w), word);
    lemma_put_chars(w, f, word, style, false);
}

/// The characters of words and of the space between them.
pub open spec fn token_text(list: Seq<(Seq<char>, bool)>) -> Seq<char>
    decreases list.len(),
{
    if list.len() == 0 {
        Seq::empty()
    } else {
        token_text(list.drop_last()) + list.last().0
    }
}

proof fn lemma_tokens(text: Seq<char>)
    ensures
        token_text(tokens(text)) == text,
        forall|i: int|
            0 <= i < tokens(text).len() && (#[trigger] tokens(text)[i]).1 ==> visible(
                tokens(text)[i].0,
            ) == Seq::<char>::empty(),
    decreases text.len(),
{
    if text.len() > 0 {
        let rest = tokens(text.drop_last());
        lemma_tokens(text.drop_last());
        let out = tokens(text);
        let c = text.last();
        if rest.len() > 0 && rest.last().1 == whitespace(c) {
            assert(out.drop_last() =~= rest.drop_last());
            assert(token_text(out) =~= token_text(rest.drop_last()) + rest.last().0.push(c));
            assert(token_text(rest.drop_last()) + rest.last().0.push(c) =~= (token_text(
                rest.drop_last(),
            ) + rest.last().0).push(c));
            assert(rest.last().0.push(c).drop_last() =~= rest.last().0);
        } else {
            assert(out.drop_last() =~= rest);
            assert(token_text(out) =~= token_text(rest).push(c));
            assert(seq![c].drop_last() =~= Seq::<char>::empty());
            assert(whitespace(c) ==> visible(seq![c]) == Seq::<char>::empty()) by {
                reveal_with_fuel(visible, 2);
            }
        }
        assert(text.drop_last().push(c) =~= text);
        assert forall|i: int| 0 <= i < out.len() && (#[trigger] out[i]).1 implies visible(out[i].0)
            == Seq::<char>::empty() by {
            if i < out.len() - 1 {
                assert(out[i] == rest[i]);
            }
        }
    }
}

proof fn lemma_put_tokens(
    w: WrapView,
    f: FrameView,
    list: Seq<(Seq<char>, bool)>,
    style: Style,
    keep: bool,
)
    requires
        f.continuation.len() == 0,
        forall|i: int|
            0 <= i < list.len() && (#[trigger] list[i]).1 ==> visible(list[i].0) == Seq::<
                char,
            >::empty(),
    ensures
        keep ==> written(put_tokens(w, f, list, style, keep)) == written(w) + token_text(list),
        visible(written(put_tokens(w, f, list, style, keep))) == visible(written(w)) + visible(
            token_text(list),
        ),
    decreases list.len(),
{
    if list.len() == 0 {
        assert(written(w) + token_text(list) =~= written(w));
        assert(visible(written(w)) + visible(token_text(list)) =~= visible(written(w)));
    } else {
        let before = put_tokens(w, f, list.drop_last(), style, keep);
        let token = list.last();
        assert forall|i: int|
            0 <= i < list.drop_last().len() && (#[trigger] list.drop_last()[i]).1 implies visible(
            list.drop_last()[i].0,
        ) == Seq::<char>::empty() by {
            assert(list.drop_last()[i] == list[i]);
        }
        lemma_put_tokens(w, f, list.drop_last(), style, keep);
        lemma_put_chars(before, f, token.0, style, keep);
        lemma_put_chars(before, f, token.0, style, false);
        lemma_put_word(before, f, token.0, style);
        lemma_visible_concat(token_text(list.drop_last()), token.0);
        assert(list[list.len() - 1] == token);
        assert((written(w) + token_text(list.drop_last())) + token.0 =~= written(w) + token_text(
            list,
        ));
        assert((visible(written(w)) + visible(token_text(list.drop_last()))) + visible(token.0)
            =~= visible(written(w)) + visible(token_text(list)));
        if token.1 {
            assert(visible(written(before)) + Seq::<char>::empty() =~= visible(written(before)));
        }
    }
}

proof fn lemma_put_spans(w: WrapView, f: FrameView, spans: Seq<SpanView>, keep: bool)
    requires
        f.continuation.len() == 0,
    ensures
        keep ==> written(put_spans(w, f, spans, keep)) == written(w) + text_of(spans),
        visible(written(put_spans(w, f, spans, keep))) == visible(written(w)) + visible(
            text_of(spans),
        ),
    decreases spans.len(),
{
    if spans.len() == 0 {
        assert(written(w) + text_of(spans) =~= written(w));
        assert(visible(written(w)) + visible(text_of(spans)) =~= visible(written(w)));
    } else {
        let before = put_spans(w, f, spans.drop_last(), keep);
        let span = spans.last();
        lemma_put_spans(w, f, spans.drop_last(), keep);
        lemma_tokens(span.content);
        lemma_put_tokens(before, f, tokens(span.content), span.style, keep);
        lemma_visible_concat(text_of(spans.drop_last()), span.content);
        assert((written(w) + text_of(spans.drop_last())) + span.content =~= written(w) + text_of(
            spans,
        ));
        assert((visible(written(w)) + visible(text_of(spans.drop_last()))) + visible(span.content)
            =~= visible(written(w)) + visible(text_of(spans)));
    }
}

/// Where nothing stands before its parts, breaking a line neither loses nor
/// adds a character that is not space, nor any character where space is kept,
/// and keeps their order.
pub proof fn breaking_keeps_the_text(l: RichView, width: usize, base: Style)
    requires
        !l.rule,
        l.first.len() == 0,
        l.continuation.len() == 0,
    ensures
        visible(all_text(broken(l, width, base))) == visible(text_of(l.spans)),
        l.keep ==> all_text(broken(l, width, base)) == text_of(l.spans),
{
    let out = broken(l, width, base);
    if l.spans.len() == 0 {
        assert(out.drop_last() =~= Seq::<LineView>::empty());
        assert(out.last().spans == Seq::<SpanView>::empty());
        assert(text_of(out.last().spans) =~= Seq::<char>::empty());
        assert(all_text(out.drop_last()) =~= Seq::<char>::empty());
        assert(all_text(out) =~= Seq::<char>::empty());
    } else {
        let start = WrapView { builder: begun(l.first, base), output: Seq::empty() };
        let f = FrameView { width, continuation: l.continuation, base };
        let w = put_spans(start, f, l.spans, l.keep);
        lemma_put_spans(start, f, l.spans, l.keep);
        assert(written(start) =~= Seq::<char>::empty());
        assert(out.drop_last() =~= w.output);
        assert(all_text(out) =~= written(w));
        assert(Seq::<char>::empty() + text_of(l.spans) =~= text_of(l.spans));
        assert(Seq::<char>::empty() + visible(text_of(l.spans)) =~= visible(text_of(l.spans)));
    }
}

} // verus!
