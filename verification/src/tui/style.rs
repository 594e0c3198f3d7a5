//! Styled text: what the interface hands to the terminal.
use vstd::prelude::*;

verus! {

/// A colour: one of the interface's own, a mix of red, green and blue, or one
/// of the terminal's.
#[derive(Debug, Clone, Copy, PartialEq, Eq, Structural)]
pub enum Color {
    Bg,
    Surface,
    Panel,
    Fg,
    Muted,
    Dim,
    Grid,
    Accent,
    AccentSoft,
    Success,
    Warning,
    Error,
    Info,
    UserBg,
    ToolPendingBg,
    SelectedBg,
    Rgb(u8, u8, u8),
    DarkGray,
    Cyan,
    Magenta,
    LightGreen,
    LightBlue,
    LightCyan,
    LightMagenta,
}

/// The red, green and blue of a colour that is not one of the terminal's.
pub open spec fn mix(c: Color) -> Option<(u8, u8, u8)> {
    match c {
        Color::Bg => Some((5, 5, 6)),
        Color::Surface => Some((13, 13, 16)),
        Color::Panel => Some((21, 21, 24)),
        Color::Fg => Some((244, 244, 245)),
        Color::Muted => Some((161, 161, 170)),
        Color::Dim => Some((113, 113, 122)),
        Color::Grid => Some((82, 82, 91)),
        Color::Accent => Some((124, 111, 175)),
        Color::AccentSoft => Some((141, 127, 192)),
        Color::Success => Some((125, 168, 118)),
        Color::Warning => Some((245, 158, 11)),
        Color::Error => Some((208, 111, 130)),
        Color::Info => Some((56, 189, 248)),
        Color::UserBg => Some((26, 26, 31)),
        Color::ToolPendingBg => Some((16, 16, 21)),
        Color::SelectedBg => Some((34, 34, 38)),
        Color::Rgb(red, green, blue) => Some((red, green, blue)),
        _ => None,
    }
}

impl Color {
    /// The red, green and blue of a colour that is not one of the terminal's.
    pub fn rgb(self) -> (r: Option<(u8, u8, u8)>)
        ensures
            r == mix(self),
    {
        match self {
            Color::Bg => Some((5, 5, 6)),
            Color::Surface => Some((13, 13, 16)),
            Color::Panel => Some((21, 21, 24)),
            Color::Fg => Some((244, 244, 245)),
            Color::Muted => Some((161, 161, 170)),
            Color::Dim => Some((113, 113, 122)),
            Color::Grid => Some((82, 82, 91)),
            Color::Accent => Some((124, 111, 175)),
            Color::AccentSoft => Some((141, 127, 192)),
            Color::Success => Some((125, 168, 118)),
            Color::Warning => Some((245, 158, 11)),
            Color::Error => Some((208, 111, 130)),
            Color::Info => Some((56, 189, 248)),
            Color::UserBg => Some((26, 26, 31)),
            Color::ToolPendingBg => Some((16, 16, 21)),
            Color::SelectedBg => Some((34, 34, 38)),
            Color::Rgb(red, green, blue) => Some((red, green, blue)),
            _ => None,
        }
    }
}

/// How a text looks. A colour that is not set, and a property that is not
/// there, leave what is below as it is.
#[derive(Debug, Clone, Copy, PartialEq, Eq, Structural)]
pub struct Style {
    pub fg: Option<Color>,
    pub bg: Option<Color>,
    pub bold: bool,
    pub italic: bool,
    pub underlined: bool,
    pub crossed_out: bool,
}

/// The style that changes nothing.
pub open spec fn no_style() -> Style {
    Style {
        fg: None,
        bg: None,
        bold: false,
        italic: false,
        underlined: false,
        crossed_out: false,
    }
}

/// The style with nothing but a colour.
pub open spec fn coloured(c: Color) -> Style {
    Style { fg: Some(c), ..no_style() }
}

/// The style with a colour, and in bold.
pub open spec fn bold_colour(c: Color) -> Style {
    Style { fg: Some(c), bold: true, ..no_style() }
}

/// A style with another one on top of it.
pub open spec fn patched(a: Style, b: Style) -> Style {
    Style {
        fg: if b.fg is Some {
            b.fg
        } else {
            a.fg
        },
        bg: if b.bg is Some {
            b.bg
        } else {
            a.bg
        },
        bold: a.bold || b.bold,
        italic: a.italic || b.italic,
        underlined: a.underlined || b.underlined,
        crossed_out: a.crossed_out || b.crossed_out,
    }
}

impl Style {
    /// The style that changes nothing.
    pub fn plain() -> (r: Self)
        ensures
            r == no_style(),
    {
        Style {
            fg: None,
            bg: None,
            bold: false,
            italic: false,
            underlined: false,
            crossed_out: false,
        }
    }

    /// The style with nothing but a colour.
    pub fn colour(c: Color) -> (r: Self)
        ensures
            r == coloured(c),
    {
        let mut style = Style::plain();
        style.fg = Some(c);
        style
    }

    /// The style with a colour, and in bold.
    pub fn bold(c: Color) -> (r: Self)
        ensures
            r == bold_colour(c),
    {
        let mut style = Style::plain();
        style.fg = Some(c);
        style.bold = true;
        style
    }

    /// The style with another one on top of it.
    pub fn patch(self, other: Style) -> (r: Self)
        ensures
            r == patched(self, other),
    {
        Style {
            fg: if other.fg.is_some() {
                other.fg
            } else {
                self.fg
            },
            bg: if other.bg.is_some() {
                other.bg
            } else {
                self.bg
            },
            bold: self.bold || other.bold,
            italic: self.italic || other.italic,
            underlined: self.underlined || other.underlined,
            crossed_out: self.crossed_out || other.crossed_out,
        }
    }
}

/// A stretch of text in one style.
#[derive(Debug)]
pub struct Span {
    pub content: String,
    pub style: Style,
}

/// The view of a stretch of text.
#[verifier::ext_equal]
pub struct SpanView {
    pub content: Seq<char>,
    pub style: Style,
}

impl View for Span {
    type V = SpanView;

    open spec fn view(&self) -> SpanView {
        SpanView { content: self.content@, style: self.style }
    }
}

/// The views of stretches of text.
pub open spec fn span_views(v: Seq<Span>) -> Seq<SpanView> {
    v.map_values(|s: Span| s@)
}

/// The side on which a line begins.
#[derive(Debug, Clone, Copy, PartialEq, Eq, Structural)]
pub enum Alignment {
    Left,
    Right,
}

/// A line; its style lies below those of its stretches.
#[derive(Debug)]
pub struct Line {
    pub spans: Vec<Span>,
    pub style: Style,
    pub alignment: Option<Alignment>,
}

/// The view of a line.
#[verifier::ext_equal]
pub struct LineView {
    pub spans: Seq<SpanView>,
    pub style: Style,
    pub alignment: Option<Alignment>,
}

impl View for Line {
    type V = LineView;

    open spec fn view(&self) -> LineView {
        LineView {
            spans: span_views(self.spans@),
            style: self.style,
            alignment: self.alignment,
        }
    }
}

/// The views of lines.
pub open spec fn line_views(v: Seq<Line>) -> Seq<LineView> {
    v.map_values(|l: Line| l@)
}

/// The line that is made of stretches of text.
pub open spec fn line_of(spans: Seq<SpanView>) -> LineView {
    LineView { spans, style: no_style(), alignment: None }
}

/// The characters of stretches of text.
pub open spec fn text_of(spans: Seq<SpanView>) -> Seq<char>
    decreases spans.len(),
{
    if spans.len() == 0 {
        Seq::empty()
    } else {
        text_of(spans.drop_last()) + spans.last().content
    }
}

/// Stretches of text with more behind them: in the last stretch where the style
/// is the same, and in one of its own otherwise.
pub open spec fn extended(spans: Seq<SpanView>, text: Seq<char>, style: Style) -> Seq<SpanView> {
    if text.len() == 0 {
        spans
    } else if spans.len() > 0 && spans.last().style == style {
        spans.drop_last().push(SpanView { content: spans.last().content + text, style })
    } else {
        spans.push(SpanView { content: text, style })
    }
}

/// Text that is put behind stretches of text is behind their text.
pub proof fn lemma_extended_text(spans: Seq<SpanView>, text: Seq<char>, style: Style)
    ensures
        text_of(extended(spans, text, style)) == text_of(spans) + text,
{
    if text.len() == 0 {
        assert(text_of(spans) + text =~= text_of(spans));
    } else if spans.len() > 0 && spans.last().style == style {
        let out = extended(spans, text, style);
        assert(out.drop_last() =~= spans.drop_last());
        assert(text_of(spans) + text =~= text_of(spans.drop_last()) + (spans.last().content
            + text));
    } else {
        let out = extended(spans, text, style);
        assert(out.drop_last() =~= spans);
    }
}

impl Span {
    /// A stretch of text.
    pub fn new(content: String, style: Style) -> (r: Self)
        ensures
            r@ == (SpanView { content: content@, style }),
    {
        Span { content, style }
    }

    /// A stretch of a given text.
    pub fn of(content: &str, style: Style) -> (r: Self)
        ensures
            r@ == (SpanView { content: content@, style }),
    {
        Span { content: content.to_owned(), style }
    }
}

impl Clone for Span {
    fn clone(&self) -> (r: Self)
        ensures
            r@ == self@,
    {
        Span { content: self.content.clone(), style: self.style }
    }
}

/// A copy of stretches of text.
pub fn copy_spans(spans: &Vec<Span>) -> (r: Vec<Span>)
    ensures
        span_views(r@) == span_views(spans@),
{
    let ghost all = span_views(spans@);
    let mut out: Vec<Span> = Vec::new();
    let mut i: usize = 0;
    assert(span_views(out@) =~= all.take(0));
    while i < spans.len()
        invariant
            i <= spans.len(),
            all == span_views(spans@),
            span_views(out@) == all.take(i as int),
        decreases spans.len() - i,
    {
        let span = spans[i].clone();
        assert(span_views(out@.push(span)) =~= span_views(out@).push(span@));
        out.push(span);
        i += 1;
        assert(all.take(i as int) =~= all.take(i - 1).push(all[i - 1]));
    }
    assert(all.take(i as int) =~= all);
    out
}

impl Line {
    /// The line that is made of stretches of text.
    pub fn new(spans: Vec<Span>) -> (r: Self)
        ensures
            r@ == line_of(span_views(spans@)),
    {
        Line { spans, style: Style::plain(), alignment: None }
    }

    /// The line that is made of one stretch of text.
    pub fn of(span: Span) -> (r: Self)
        ensures
            r@ == line_of(seq![span@]),
    {
        let mut spans: Vec<Span> = Vec::new();
        spans.push(span);
        assert(span_views(spans@) =~= seq![span@]);
        Line::new(spans)
    }

    /// The line without text.
    pub fn blank() -> (r: Self)
        ensures
            r@ == line_of(Seq::empty()),
    {
        let spans: Vec<Span> = Vec::new();
        assert(span_views(spans@) =~= Seq::empty());
        Line::new(spans)
    }

    /// The characters of the line.
    pub fn to_text(&self) -> (r: String)
        ensures
            r@ == text_of(self@.spans),
    {
        let ghost all = self@.spans;
        let mut out = String::new();
        let mut i: usize = 0;
        assert(out@ =~= text_of(all.take(0)));
        while i < self.spans.len()
            invariant
                i <= self.spans.len(),
                all == span_views(self.spans@),
                out@ == text_of(all.take(i as int)),
            decreases self.spans.len() - i,
        {
            out.append(self.spans[i].content.as_str());
            i += 1;
            proof {
                assert(all.take(i as int).drop_last() =~= all.take(i - 1));
                assert(all.take(i as int).last() == self.spans@[i - 1]@);
            }
        }
        assert(all.take(i as int) =~= all);
        out
    }
}

impl Clone for Line {
    fn clone(&self) -> (r: Self)
        ensures
            r@ == self@,
    {
        Line {
            spans: copy_spans(&self.spans),
            style: self.style,
            alignment: self.alignment,
        }
    }
}

/// Puts a stretch of text behind others.
pub fn push_span(spans: &mut Vec<Span>, span: Span)
    ensures
        span_views(final(spans)@) == span_views(old(spans)@).push(span@),
{
    let ghost before = span_views(spans@);
    spans.push(span);
    assert(span_views(spans@) =~= before.push(span@));
}

/// Puts a line behind others.
pub fn push_line(lines: &mut Vec<Line>, line: Line)
    ensures
        line_views(final(lines)@) == line_views(old(lines)@).push(line@),
{
    let ghost before = line_views(lines@);
    lines.push(line);
    assert(line_views(lines@) =~= before.push(line@));
}

/// Puts more text behind stretches of text.
pub fn extend(spans: &mut Vec<Span>, text: &str, style: Style)
    ensures
        span_views(final(spans)@) == extended(span_views(old(spans)@), text@, style),
{
    if text.is_empty() {
        return;
    }
    let ghost before = span_views(spans@);
    let count: usize = spans.len();
    if count > 0 && spans[count - 1].style == style {
        let mut content: String = spans[count - 1].content.clone();
        content.append(text);
        spans.set(count - 1, Span { content, style });
    } else {
        spans.push(Span { content: text.to_owned(), style });
    }
    assert(span_views(spans@) =~= extended(before, text@, style));
}

/// What lies behind everything.
pub const BG: Color = Color::Bg;

/// What lies behind the input.
pub const SURFACE: Color = Color::Surface;

/// What lies behind the menus.
pub const PANEL: Color = Color::Panel;

/// Text.
pub const FG: Color = Color::Fg;

/// Text of less weight.
pub const MUTED: Color = Color::Muted;

/// Text of the least weight.
pub const DIM: Color = Color::Dim;

/// Borders.
pub const GRID: Color = Color::Grid;

/// What stands out.
pub const ACCENT: Color = Color::Accent;

/// What stands out less.
pub const ACCENT_SOFT: Color = Color::AccentSoft;

/// What went well.
pub const SUCCESS: Color = Color::Success;

/// What needs attention.
pub const WARNING: Color = Color::Warning;

/// What went wrong.
pub const ERROR: Color = Color::Error;

/// What is told.
pub const INFO: Color = Color::Info;

/// What lies behind a user's message.
pub const USER_BG: Color = Color::UserBg;

/// What lies behind a tool's message.
pub const TOOL_PENDING_BG: Color = Color::ToolPendingBg;

/// What lies behind the selected row of a menu.
pub const SELECTED_BG: Color = Color::SelectedBg;

/// The style of the selected row of a menu.
pub open spec fn selected_style() -> Style {
    Style { fg: Some(FG), bg: Some(SELECTED_BG), bold: true, ..no_style() }
}

/// The style of the selected row of a menu.
pub fn selected_row() -> (r: Style)
    ensures
        r == selected_style(),
{
    let mut style = Style::bold(FG);
    style.bg = Some(SELECTED_BG);
    style
}

/// The style of the border around the input while the agent is at work.
pub fn active_border() -> (r: Style)
    ensures
        r == coloured(ACCENT),
{
    Style::colour(ACCENT)
}

/// The style of the border around the input otherwise.
pub fn muted_border() -> (r: Style)
    ensures
        r == coloured(GRID),
{
    Style::colour(GRID)
}

} // verus!
