//! What the interface looks like: messages, menus, the input and the status.
use crate::text::{decimal, decimal_of, pad, padded, same, split, split_on, texts};
use crate::tui::app::{menu, App, AppView, ChoiceView, Message, MessageKind, MessageView};
use crate::tui::command::{command_views, CommandView};
use crate::tui::markdown::{pieces, render, rendered};
use crate::tui::style::{
    bold_colour, coloured, copy_spans, line_of, line_views, no_style, push_line, push_span,
    selected_row, selected_style, span_views, Alignment, Line, LineView, Span, SpanView, Style,
    ACCENT, ACCENT_SOFT, DIM, ERROR, FG, INFO, MUTED, SUCCESS, TOOL_PENDING_BG, USER_BG,
};
use crate::tui::wrap::less;
use vstd::prelude::*;

verus! {

/// How many rows the interface takes.
pub const VIEWPORT_HEIGHT: u16 = 10;

/// What stands before the input.
pub const INPUT_PROMPT: &'static str = "> ";

/// How many rows a menu takes.
pub const COMMAND_MENU_HEIGHT: u16 = 6;

/// How many entries of a menu are shown at most.
pub const COMMAND_MENU_MAX_VISIBLE: usize = 5;

/// How many lines of a tool's message are shown at most.
pub const TOOL_MESSAGE_MAX_LINES: usize = 3;

/// From which width on the welcome is shown side by side.
pub const WIDE_WELCOME_MIN_WIDTH: usize = 68;

/// How much of a message that is coming in has left the interface, and the
/// width in which it was broken.
#[derive(Debug, Clone, Copy, PartialEq, Eq, Structural)]
pub struct StreamView {
    pub committed_lines: usize,
    pub render_width: usize,
}

/// The lines that a text is broken into by `textwrap::wrap`.
pub uninterp spec fn wrapped_text(
    text: Seq<char>,
    width: usize,
    indent: Seq<char>,
    break_words: bool,
) -> Seq<Seq<char>>;

/// `textwrap::wrap` of a text in a width, with the same indentation before
/// every line.
#[verifier::external_body]
pub(crate) fn wrap_text(text: &str, width: usize, indent: &str, break_words: bool) -> (r: Vec<
    String,
>)
    ensures
        texts(r@) == wrapped_text(text@, width, indent@, break_words),
{
    let options = textwrap::Options::new(width)
        .initial_indent(indent)
        .subsequent_indent(indent)
        .break_words(break_words);
    textwrap::wrap(text, options).into_iter().map(|line| line.into_owned()).collect()
}

/// A rectangle of the terminal.
#[derive(Debug, Clone, Copy, PartialEq, Eq, Structural)]
pub struct Area {
    pub x: u16,
    pub y: u16,
    pub width: u16,
    pub height: u16,
}

/// How much of a size there is room for behind a place.
pub open spec fn room(at: u16, size: u16) -> u16 {
    if at + size <= u16::MAX {
        size
    } else {
        (u16::MAX - at) as u16
    }
}

/// How high some rows are together.
pub open spec fn total_height(heights: Seq<u16>) -> nat
    decreases heights.len(),
{
    if heights.len() == 0 {
        0
    } else {
        total_height(heights.drop_last()) + heights.last() as nat
    }
}

/// A rectangle, given by its column, row, width and height, with rows of the
/// given heights at its bottom, one below the other, and one row above them that
/// takes what is left.
pub open spec fn stacked(area: (u16, u16, u16, u16), heights: Seq<u16>) -> Seq<
    (u16, u16, u16, u16),
> {
    let left = room(area.1, area.3) - total_height(heights);
    Seq::new(
        heights.len() + 1,
        |i: int|
            if i == 0 {
                (area.0, area.1, room(area.0, area.2), left as u16)
            } else {
                (
                    area.0,
                    (area.1 + left + total_height(heights.take(i - 1))) as u16,
                    room(area.0, area.2),
                    heights[i - 1],
                )
            },
    )
}

/// A row lies inside a rectangle, over its whole width.
pub open spec fn is_row_of(row: (u16, u16, u16, u16), area: (u16, u16, u16, u16)) -> bool {
    &&& row.0 == area.0
    &&& row.2 == room(area.0, area.2)
    &&& area.1 <= row.1
    &&& row.1 + row.3 <= area.1 + room(area.1, area.3)
}

/// `ratatui::layout::Layout::vertical` and its `split` of a
/// `ratatui::layout::Rect::new`: one row with `Constraint::Min` of nothing, and
/// three with `Constraint::Length` of their heights. Each row lies inside the
/// rectangle, which is cut where it would reach beyond the last place. Where the
/// rectangle is high enough, every row has its height and the first takes what
/// is left. Where it is not, nothing more is said: how the solver then shortens
/// the rows is left open.
#[verifier::external_body]
pub(crate) fn split_rows(area: (u16, u16, u16, u16), heights: &Vec<u16>) -> (r: Vec<
    (u16, u16, u16, u16),
>)
    requires
        heights@.len() == 3,
    ensures
        r@.len() == 4,
        forall|i: int| 0 <= i < 4 ==> is_row_of(#[trigger] r@[i], area),
        total_height(heights@) <= room(area.1, area.3) ==> r@ == stacked(area, heights@),
{
    let mut constraints = vec![ratatui::layout::Constraint::Min(0)];
    constraints.extend(heights.iter().map(|n| ratatui::layout::Constraint::Length(*n)));
    let area = ratatui::layout::Rect::new(area.0, area.1, area.2, area.3);
    let rows = ratatui::layout::Layout::vertical(constraints).split(area);
    rows.iter().map(|row| (row.x, row.y, row.width, row.height)).collect()
}

/// The heights of the status, of the input and of the menu.
pub open spec fn row_heights(menu_open: bool) -> Seq<u16> {
    seq![
        1u16,
        3u16,
        if menu_open {
            COMMAND_MENU_HEIGHT
        } else {
            0u16
        },
    ]
}

/// The rectangle as its column, row, width and height.
pub open spec fn corners(a: Area) -> (u16, u16, u16, u16) {
    (a.x, a.y, a.width, a.height)
}

/// How high the status, the input and the menu are together.
pub open spec fn rows_needed(menu_open: bool) -> int {
    if menu_open {
        4 + COMMAND_MENU_HEIGHT
    } else {
        4
    }
}

/// Where the message that is coming in, the status, the input and the menu go:
/// each over the whole width, and one below the other where there is room.
pub fn tui_areas(area: Area, menu_open: bool) -> (r: Vec<Area>)
    ensures
        r@.len() == 4,
        forall|i: int| 0 <= i < 4 ==> is_row_of(corners(#[trigger] r@[i]), corners(area)),
        rows_needed(menu_open) <= room(area.y, area.height) ==> {
            let width = room(area.x, area.width);
            let left = room(area.y, area.height) - rows_needed(menu_open);
            let menu = rows_needed(menu_open) - 4;
            let y = area.y + left;
            &&& r@[0] == (Area { x: area.x, y: area.y, width, height: left as u16 })
            &&& r@[1] == (Area { x: area.x, y: y as u16, width, height: 1 })
            &&& r@[2] == (Area { x: area.x, y: (y + 1) as u16, width, height: 3 })
            &&& r@[3] == (Area { x: area.x, y: (y + 4) as u16, width, height: menu as u16 })
        },
{
    let mut heights: Vec<u16> = Vec::new();
    heights.push(1);
    heights.push(3);
    heights.push(if menu_open {
        COMMAND_MENU_HEIGHT
    } else {
        0
    });
    let ghost given = row_heights(menu_open);
    let ghost whole = corners(area);
    assert(heights@ =~= given);
    proof {
        assert(given.take(0) =~= Seq::<u16>::empty());
        assert(given.take(1) =~= seq![1u16]);
        assert(given.take(2) =~= seq![1u16, 3u16]);
        assert(given.take(1).drop_last() =~= given.take(0));
        assert(given.take(2).drop_last() =~= given.take(1));
        assert(given.drop_last() =~= given.take(2));
        assert(total_height(given.take(0)) == 0);
        assert(total_height(given.take(1)) == 1);
        assert(total_height(given.take(2)) == 4);
        assert(total_height(given) == rows_needed(menu_open));
    }
    let rows = split_rows((area.x, area.y, area.width, area.height), &heights);
    let mut out: Vec<Area> = Vec::new();
    let mut i: usize = 0;
    while i < rows.len()
        invariant
            i <= rows.len(),
            out@.len() == i,
            forall|j: int| 0 <= j < i ==> corners(#[trigger] out@[j]) == rows@[j],
        decreases rows.len() - i,
    {
        let a = rows[i];
        out.push(Area { x: a.0, y: a.1, width: a.2, height: a.3 });
        i += 1;
    }
    proof {
        if rows_needed(menu_open) <= room(area.y, area.height) {
            assert forall|j: int| 0 <= j < 4 implies corners(#[trigger] out@[j]) == stacked(
                whole,
                given,
            )[j] by {}
            assert(corners(out@[0]) == stacked(whole, given)[0]);
            assert(corners(out@[1]) == stacked(whole, given)[1]);
            assert(corners(out@[2]) == stacked(whole, given)[2]);
            assert(corners(out@[3]) == stacked(whole, given)[3]);
        }
    }
    out
}

/// A stretch of text.
pub open spec fn span(content: Seq<char>, style: Style) -> SpanView {
    SpanView { content, style }
}

/// A message's heading, the style of the heading, and the style of the message.
pub open spec fn look(kind: MessageKind) -> (Seq<char>, Style, Style) {
    match kind {
        MessageKind::User => (
            "▸ You"@,
            bold_colour(INFO),
            Style { fg: Some(FG), bg: Some(USER_BG), ..no_style() },
        ),
        MessageKind::Agent => ("◆ Noya"@, bold_colour(ACCENT_SOFT), coloured(FG)),
        MessageKind::Tool => (
            "└─ Tool"@,
            bold_colour(ACCENT),
            Style { fg: Some(MUTED), bg: Some(TOOL_PENDING_BG), ..no_style() },
        ),
        MessageKind::System => ("· System"@, bold_colour(DIM), coloured(MUTED)),
        MessageKind::Error => ("✕ Error"@, bold_colour(ERROR), coloured(ERROR)),
    }
}

/// A message's heading, the style of the heading, and the style of the message.
pub fn message_style(kind: MessageKind) -> (r: (&'static str, Style, Style))
    ensures
        (r.0@, r.1, r.2) == look(kind),
{
    match kind {
        MessageKind::User => {
            let mut content = Style::colour(FG);
            content.bg = Some(USER_BG);
            ("▸ You", Style::bold(INFO), content)
        },
        MessageKind::Agent => ("◆ Noya", Style::bold(ACCENT_SOFT), Style::colour(FG)),
        MessageKind::Tool => {
            let mut content = Style::colour(MUTED);
            content.bg = Some(TOOL_PENDING_BG);
            ("└─ Tool", Style::bold(ACCENT), content)
        },
        MessageKind::System => ("· System", Style::bold(DIM), Style::colour(MUTED)),
        MessageKind::Error => ("✕ Error", Style::bold(ERROR), Style::colour(ERROR)),
    }
}

/// The style of what the user types.
pub fn input_text_style() -> (r: Style)
    ensures
        r == coloured(FG),
{
    Style::colour(FG)
}

/// The first line of a message.
pub open spec fn heading_line(kind: MessageKind) -> LineView {
    let l = look(kind);
    if kind == MessageKind::User {
        line_of(seq![span(l.0, l.1), span("  "@, no_style())])
    } else {
        line_of(seq![span(l.0, l.1)])
    }
}

/// A line of a broken text, for a kind of message.
pub open spec fn text_line(kind: MessageKind, text: Seq<char>) -> LineView {
    let style = look(kind).2;
    if kind == MessageKind::User {
        line_of(seq![span(text, style), span("  "@, style)])
    } else {
        line_of(seq![span(text, style)])
    }
}

/// How wide a text is broken for a kind of message, and its indentation.
pub open spec fn text_frame(kind: MessageKind, width: usize) -> (usize, Seq<char>) {
    if kind == MessageKind::User {
        (less(available(width), 2), ""@)
    } else {
        (available(width), "  "@)
    }
}

/// The width that a message has in any case.
pub open spec fn available(width: usize) -> usize {
    if width < 4 {
        4
    } else {
        width
    }
}

/// The lines of one line of a message.
pub open spec fn raw_lines(kind: MessageKind, raw: Seq<char>, width: usize) -> Seq<LineView> {
    let f = text_frame(kind, width);
    if raw.len() == 0 {
        seq![line_of(seq![span("  "@, no_style())])]
    } else {
        wrapped_text(raw, f.0, f.1, true).map_values(|t: Seq<char>| text_line(kind, t))
    }
}

/// The lines of the lines of a message.
pub open spec fn text_lines(kind: MessageKind, parts: Seq<Seq<char>>, width: usize) -> Seq<LineView>
    decreases parts.len(),
{
    if parts.len() == 0 {
        Seq::empty()
    } else {
        text_lines(kind, parts.drop_last(), width) + raw_lines(kind, parts.last(), width)
    }
}

/// A line of Markdown, indented.
pub open spec fn indented(l: LineView, style: Style) -> LineView {
    line_of(seq![span("  "@, style)] + l.spans)
}

/// The lines of a message's text.
pub open spec fn body_lines(m: MessageView, width: usize) -> Seq<LineView> {
    let style = look(m.kind).2;
    if m.kind == MessageKind::Agent {
        rendered(pieces(m.content), less(available(width), 2), style).map_values(
            |l: LineView| indented(l, style),
        )
    } else {
        text_lines(m.kind, split_on(m.content, '\n'), width)
    }
}

/// A tool's message, cut where it is too long.
pub open spec fn cut(lines: Seq<LineView>, style: Style) -> Seq<LineView> {
    if lines.len() <= TOOL_MESSAGE_MAX_LINES {
        lines
    } else {
        let kept = lines.take(TOOL_MESSAGE_MAX_LINES as int);
        kept.drop_last().push(
            LineView { spans: kept.last().spans.push(span(" …"@, style)), ..kept.last() },
        )
    }
}

/// The side on which a message stands.
pub open spec fn side(kind: MessageKind) -> Alignment {
    if kind == MessageKind::User {
        Alignment::Right
    } else {
        Alignment::Left
    }
}

/// The lines of a message: its heading, its text, and a line without text
/// behind it.
pub open spec fn shown_message(m: MessageView, width: usize) -> Seq<LineView> {
    let all = seq![heading_line(m.kind)] + body_lines(m, width);
    let lines = if m.kind == MessageKind::Tool {
        cut(all, look(m.kind).2)
    } else {
        all
    };
    lines.push(line_of(Seq::empty())).map_values(
        |l: LineView| LineView { alignment: Some(side(m.kind)), ..l },
    )
}

fn two_spans(first: Span, second: Span) -> (r: Line)
    ensures
        r@ == line_of(seq![first@, second@]),
{
    let mut spans: Vec<Span> = Vec::new();
    spans.push(first);
    spans.push(second);
    assert(span_views(spans@) =~= seq![first@, second@]);
    Line::new(spans)
}

/// Adds the lines of one line of a message.
fn push_raw(lines: &mut Vec<Line>, kind: MessageKind, raw: &str, width: usize)
    requires
        kind != MessageKind::Agent,
    ensures
        line_views(final(lines)@) == line_views(old(lines)@) + raw_lines(kind, raw@, width),
{
    let ghost before = line_views(lines@);
    if raw.is_empty() {
        push_line(lines, Line::of(Span::of("  ", Style::plain())));
        assert(line_views(lines@) =~= before + raw_lines(kind, raw@, width));
        return;
    }
    let style = message_style(kind).2;
    let user = kind == MessageKind::User;
    let room: usize = if width < 4 {
        4
    } else {
        width
    };
    let parts = if user {
        wrap_text(raw, room - 2, "", true)
    } else {
        wrap_text(raw, room, "  ", true)
    };
    let ghost all = raw_lines(kind, raw@, width);
    assert(texts(parts@).len() == parts@.len());
    let mut i: usize = 0;
    assert(before + all.take(0) =~= before);
    while i < parts.len()
        invariant
            i <= parts.len(),
            raw@.len() > 0,
            texts(parts@) == wrapped_text(
                raw@,
                text_frame(kind, width).0,
                text_frame(kind, width).1,
                true,
            ),
            all == raw_lines(kind, raw@, width),
            all.len() == parts@.len(),
            style == look(kind).2,
            user == (kind == MessageKind::User),
            line_views(lines@) == before + all.take(i as int),
        decreases parts.len() - i,
    {
        let text = Span::of(parts[i].as_str(), style);
        assert(texts(parts@)[i as int] == parts@[i as int]@);
        let line = if user {
            two_spans(text, Span::of("  ", style))
        } else {
            Line::of(text)
        };
        assert(line@ == all[i as int]);
        push_line(lines, line);
        i += 1;
        assert(before + all.take(i as int) =~= (before + all.take(i - 1)).push(all[i - 1]));
    }
    assert(all.take(i as int) =~= all);
}

/// Cuts a tool's message where it is too long.
fn limit_tool_message_lines(lines: &mut Vec<Line>, style: Style)
    ensures
        line_views(final(lines)@) == cut(line_views(old(lines)@), style),
{
    let ghost all = line_views(lines@);
    if lines.len() <= TOOL_MESSAGE_MAX_LINES {
        return;
    }
    lines.truncate(TOOL_MESSAGE_MAX_LINES);
    assert(line_views(lines@) =~= all.take(TOOL_MESSAGE_MAX_LINES as int));
    let ghost kept = line_views(lines@);
    let mut last = lines[TOOL_MESSAGE_MAX_LINES - 1].clone();
    assert(last@ == kept.last());
    push_span(&mut last.spans, Span::of(" …", style));
    lines.set(TOOL_MESSAGE_MAX_LINES - 1, last);
    assert(line_views(lines@) =~= cut(all, style));
}

/// Puts all lines on one side.
fn align(lines: Vec<Line>, alignment: Alignment) -> (r: Vec<Line>)
    ensures
        line_views(r@) == line_views(lines@).map_values(
            |l: LineView| LineView { alignment: Some(alignment), ..l },
        ),
{
    let ghost all = line_views(lines@).map_values(
        |l: LineView| LineView { alignment: Some(alignment), ..l },
    );
    let mut out: Vec<Line> = Vec::new();
    assert(line_views(out@) =~= all.take(0));
    for line in it: lines
        invariant
            it.seq() == lines@,
            all == line_views(lines@).map_values(
                |l: LineView| LineView { alignment: Some(alignment), ..l },
            ),
            line_views(out@) == all.take(it.index() as int),
    {
        let ghost i = it.index() as int;
        let placed = Line {
            spans: line.spans,
            style: line.style,
            alignment: Some(alignment),
        };
        assert(line_views(lines@)[i] == line@);
        assert(placed@ =~= all[i]);
        push_line(&mut out, placed);
        assert(all.take(i + 1) =~= all.take(i).push(all[i]));
    }
    assert(all.take(all.len() as int) =~= all);
    out
}

/// The lines of a message.
pub fn message_lines(message: &Message, width: usize) -> (r: Vec<Line>)
    ensures
        line_views(r@) == shown_message(message@, width),
{
    let ghost m = message@;
    let (label, label_style, content_style) = message_style(message.kind);
    let mut lines: Vec<Line> = Vec::new();
    let heading = if message.kind == MessageKind::User {
        two_spans(Span::of(label, label_style), Span::of("  ", Style::plain()))
    } else {
        Line::of(Span::of(label, label_style))
    };
    let ghost head = seq![heading_line(m.kind)];
    push_line(&mut lines, heading);
    assert(line_views(lines@) =~= head);
    let room: usize = if width < 4 {
        4
    } else {
        width
    };
    let ghost body = body_lines(m, width);
    if message.kind == MessageKind::Agent {
        let found = render(message.content.as_str(), room - 2, content_style);
        let ghost all = line_views(found@);
        let mut i: usize = 0;
        assert(head + body.take(0) =~= head);
        while i < found.len()
            invariant
                i <= found.len(),
                all == line_views(found@),
                body == all.map_values(|l: LineView| indented(l, content_style)),
                line_views(lines@) == head + body.take(i as int),
            decreases found.len() - i,
        {
            let mut spans: Vec<Span> = Vec::new();
            push_span(&mut spans, Span::of("  ", content_style));
            let mut more_spans = copy_spans(&found[i].spans);
            proof {
                assert(span_views(spans@ + more_spans@) =~= span_views(spans@) + span_views(
                    more_spans@,
                ));
                assert(span_views(spans@) =~= seq![span("  "@, content_style)]);
                assert(all[i as int] == found@[i as int]@);
            }
            spans.append(&mut more_spans);
            let line = Line::new(spans);
            assert(line@ =~= body[i as int]);
            push_line(&mut lines, line);
            i += 1;
            assert(head + body.take(i as int) =~= (head + body.take(i - 1)).push(body[i - 1]));
        }
        assert(body.take(i as int) =~= body);
    } else {
        let parts = split(message.content.as_str(), '\n');
        let ghost all = texts(parts@);
        let kind = message.kind;
        let mut i: usize = 0;
        assert(all.take(0) =~= Seq::<Seq<char>>::empty());
        assert(head + text_lines(kind, all.take(0), width) =~= head);
        while i < parts.len()
            invariant
                i <= parts.len(),
                kind != MessageKind::Agent,
                all == texts(parts@),
                line_views(lines@) == head + text_lines(kind, all.take(i as int), width),
            decreases parts.len() - i,
        {
            push_raw(&mut lines, kind, parts[i].as_str(), width);
            proof {
                let now = all.take(i + 1);
                assert(now.drop_last() =~= all.take(i as int));
                assert(now.last() == parts@[i as int]@);
                assert(head + text_lines(kind, now, width) =~= head + text_lines(
                    kind,
                    all.take(i as int),
                    width,
                ) + raw_lines(kind, now.last(), width));
            }
            i += 1;
        }
        assert(all.take(i as int) =~= all);
        if kind == MessageKind::Tool {
            limit_tool_message_lines(&mut lines, content_style);
        }
    }
    push_line(&mut lines, Line::blank());
    align(
        lines,
        if message.kind == MessageKind::User {
            Alignment::Right
        } else {
            Alignment::Left
        },
    )
}

/// The entries of a menu that are shown: the first one, and how many.
pub open spec fn window(selected: int, count: int, height: int) -> (int, int) {
    let rows = if height - 1 < 1 {
        1
    } else {
        height - 1
    };
    let most = if rows < COMMAND_MENU_MAX_VISIBLE {
        rows
    } else {
        COMMAND_MENU_MAX_VISIBLE as int
    };
    let shown = if most < count {
        most
    } else {
        count
    };
    let wanted = if selected - (shown - 1) < 0 {
        0
    } else {
        selected - (shown - 1)
    };
    (
        if wanted < count - shown {
            wanted
        } else {
            count - shown
        },
        shown,
    )
}

/// The entry of a menu that is selected.
pub open spec fn selected_entry(selection: usize, count: int) -> int {
    if selection < count {
        selection as int
    } else {
        count - 1
    }
}

/// The entries of a menu that are shown: the first one, and how many.
fn menu_window(selected: usize, count: usize, height: usize) -> (r: (usize, usize))
    requires
        selected < count,
        height > 0,
    ensures
        (r.0 as int, r.1 as int) == window(selected as int, count as int, height as int),
        r.0 + r.1 <= count,
        r.1 >= 1,
        r.1 <= height,
        r.0 <= selected < r.0 + r.1,
{
    let rows: usize = if height <= 2 {
        1
    } else {
        height - 1
    };
    let most: usize = if rows < COMMAND_MENU_MAX_VISIBLE {
        rows
    } else {
        COMMAND_MENU_MAX_VISIBLE
    };
    let shown: usize = if most < count {
        most
    } else {
        count
    };
    let wanted: usize = if selected >= shown - 1 {
        selected - (shown - 1)
    } else {
        0
    };
    let start: usize = if wanted < count - shown {
        wanted
    } else {
        count - shown
    };
    (start, shown)
}

/// The row of a menu, in its style.
pub open spec fn menu_row(spans: Seq<SpanView>, selected: bool) -> LineView {
    if selected {
        LineView { style: selected_style(), ..line_of(spans) }
    } else {
        line_of(spans)
    }
}

/// The mark before a row of a menu.
pub open spec fn mark(selected: bool) -> SpanView {
    if selected {
        span("› "@, bold_colour(ACCENT_SOFT))
    } else {
        span("  "@, coloured(DIM))
    }
}

/// The row of a model that can be chosen.
pub open spec fn choice_row(c: ChoiceView, selected: bool) -> LineView {
    menu_row(
        seq![
            mark(selected),
            span(
                padded(c.model, 12),
                if selected {
                    bold_colour(ACCENT_SOFT)
                } else {
                    coloured(FG)
                },
            ),
            span(
                padded(c.model_id, 26),
                if selected {
                    coloured(ACCENT_SOFT)
                } else {
                    coloured(DIM)
                },
            ),
            span(
                if c.current {
                    "✓ current"@
                } else {
                    ""@
                },
                coloured(SUCCESS),
            ),
        ],
        selected,
    )
}

/// The rows of a menu of models.
pub open spec fn choice_rows(v: AppView, height: usize) -> Seq<LineView> {
    let count = v.choices.len() as int;
    if count == 0 || height == 0 {
        Seq::empty()
    } else {
        let selected = selected_entry(v.model_selection, count);
        let w = window(selected, count, height as int);
        let rows = Seq::new(
            w.1 as nat,
            |i: int| choice_row(v.choices[w.0 + i], w.0 + i == selected),
        );
        if rows.len() < height {
            rows.push(
                line_of(
                    seq![
                        span(
                            "  All models · unconfigured models will ask for base URL and API key · ↑/↓ select · Enter switch · Esc close"@,
                            coloured(DIM),
                        ),
                    ],
                ),
            )
        } else {
            rows
        }
    }
}

fn menu_line(spans: Vec<Span>, selected: bool) -> (r: Line)
    ensures
        r@ == menu_row(span_views(spans@), selected),
{
    let mut line = Line::new(spans);
    if selected {
        line.style = selected_row();
    }
    line
}

fn menu_mark(selected: bool) -> (r: Span)
    ensures
        r@ == mark(selected),
{
    if selected {
        Span::of("› ", Style::bold(ACCENT_SOFT))
    } else {
        Span::of("  ", Style::colour(DIM))
    }
}

/// The rows of the menu of models.
pub fn model_menu_lines(app: &App, height: usize) -> (r: Vec<Line>)
    ensures
        line_views(r@) == choice_rows(app@, height),
{
    let ghost v = app@;
    let mut lines: Vec<Line> = Vec::new();
    assert(line_views(lines@) =~= Seq::<LineView>::empty());
    let count: usize = app.model_choices.len();
    assert(v.choices.len() == count);
    if count == 0 || height == 0 {
        return lines;
    }
    let selected: usize = if app.model_selection < count {
        app.model_selection
    } else {
        count - 1
    };
    let (start, shown) = menu_window(selected, count, height);
    let ghost rows = Seq::new(
        shown as nat,
        |i: int| choice_row(v.choices[start + i], start + i == selected),
    );
    let mut i: usize = 0;
    assert(line_views(lines@) =~= rows.take(0));
    while i < shown
        invariant
            i <= shown,
            start + shown <= count,
            count == app.model_choices@.len(),
            v == app@,
            rows == Seq::new(
                shown as nat,
                |i: int| choice_row(v.choices[start + i], start + i == selected),
            ),
            line_views(lines@) == rows.take(i as int),
        decreases shown - i,
    {
        let choice = &app.model_choices[start + i];
        assert(v.choices[start + i] == choice@);
        let on = start + i == selected;
        let mut spans: Vec<Span> = Vec::new();
        spans.push(menu_mark(on));
        spans.push(
            Span::new(
                pad(choice.model.as_str(), 12),
                if on {
                    Style::bold(ACCENT_SOFT)
                } else {
                    Style::colour(FG)
                },
            ),
        );
        spans.push(
            Span::new(
                pad(choice.model_id.as_str(), 26),
                if on {
                    Style::colour(ACCENT_SOFT)
                } else {
                    Style::colour(DIM)
                },
            ),
        );
        spans.push(
            Span::of(
                if choice.current {
                    "✓ current"
                } else {
                    ""
                },
                Style::colour(SUCCESS),
            ),
        );
        let line = menu_line(spans, on);
        assert(line@.spans =~= choice_row(choice@, on).spans);
        assert(line@ =~= rows[i as int]);
        push_line(&mut lines, line);
        i += 1;
        assert(rows.take(i as int) =~= rows.take(i - 1).push(rows[i - 1]));
    }
    assert(rows.take(i as int) =~= rows);
    assert(line_views(lines@).len() == lines@.len());
    if lines.len() < height {
        push_line(
            &mut lines,
            Line::of(
                Span::of(
                    "  All models · unconfigured models will ask for base URL and API key · ↑/↓ select · Enter switch · Esc close",
                    Style::colour(DIM),
                ),
            ),
        );
    }
    lines
}

/// How a command is given, in words.
pub open spec fn usage(c: CommandView) -> Seq<char> {
    match c.argument {
        Some(argument) => c.name + " "@ + argument,
        None => c.name,
    }
}

/// The row of a command.
pub open spec fn command_row(c: CommandView, selected: bool) -> LineView {
    menu_row(
        seq![
            mark(selected),
            span(
                padded(usage(c), 20),
                if selected {
                    bold_colour(ACCENT_SOFT)
                } else {
                    coloured(FG)
                },
            ),
            span(
                c.description,
                if selected {
                    coloured(ACCENT_SOFT)
                } else {
                    coloured(DIM)
                },
            ),
        ],
        selected,
    )
}

/// The rows of the menu of commands.
pub open spec fn command_rows(v: AppView, height: usize) -> Seq<LineView> {
    let list = menu(v);
    let count = list.len() as int;
    if count == 0 || height == 0 {
        Seq::empty()
    } else {
        let selected = selected_entry(v.selection, count);
        let w = window(selected, count, height as int);
        let rows = Seq::new(
            w.1 as nat,
            |i: int| command_row(list[w.0 + i], w.0 + i == selected),
        );
        if rows.len() < height {
            rows.push(
                line_of(
                    seq![
                        span(
                            "  ("@ + decimal((selected + 1) as nat) + "/"@ + decimal(count as nat)
                                + ")  ↑/↓ navigate · Enter select · Esc close"@,
                            coloured(DIM),
                        ),
                    ],
                ),
            )
        } else {
            rows
        }
    }
}

/// The rows of the menu of commands.
pub fn command_menu_lines(app: &App, height: usize) -> (r: Vec<Line>)
    ensures
        line_views(r@) == command_rows(app@, height),
{
    let ghost v = app@;
    let list = app.command_suggestions();
    let ghost all = menu(v);
    let mut lines: Vec<Line> = Vec::new();
    assert(line_views(lines@) =~= Seq::<LineView>::empty());
    let count: usize = list.len();
    assert(command_views(list@).len() == count);
    if count == 0 || height == 0 {
        return lines;
    }
    let selected: usize = if app.command_selection < count {
        app.command_selection
    } else {
        count - 1
    };
    let (start, shown) = menu_window(selected, count, height);
    let ghost rows = Seq::new(
        shown as nat,
        |i: int| command_row(all[start + i], start + i == selected),
    );
    let mut i: usize = 0;
    assert(line_views(lines@) =~= rows.take(0));
    while i < shown
        invariant
            i <= shown,
            start + shown <= count,
            count == list@.len(),
            all == command_views(list@),
            rows == Seq::new(
                shown as nat,
                |i: int| command_row(all[start + i], start + i == selected),
            ),
            line_views(lines@) == rows.take(i as int),
        decreases shown - i,
    {
        let command = list[start + i];
        assert(all[start + i] == command@);
        let on = start + i == selected;
        let mut text: String = command.name.to_owned();
        match command.argument {
            Some(argument) => {
                text.append(" ");
                text.append(argument);
            },
            None => {},
        }
        assert(text@ == usage(command@));
        let mut spans: Vec<Span> = Vec::new();
        spans.push(menu_mark(on));
        spans.push(
            Span::new(
                pad(text.as_str(), 20),
                if on {
                    Style::bold(ACCENT_SOFT)
                } else {
                    Style::colour(FG)
                },
            ),
        );
        spans.push(
            Span::of(
                command.description,
                if on {
                    Style::colour(ACCENT_SOFT)
                } else {
                    Style::colour(DIM)
                },
            ),
        );
        let line = menu_line(spans, on);
        assert(line@.spans =~= command_row(command@, on).spans);
        assert(line@ =~= rows[i as int]);
        push_line(&mut lines, line);
        i += 1;
        assert(rows.take(i as int) =~= rows.take(i - 1).push(rows[i - 1]));
    }
    assert(rows.take(i as int) =~= rows);
    assert(line_views(lines@).len() == lines@.len());
    if lines.len() < height {
        let mut text: String = "  (".to_owned();
        text.append(decimal_of((selected + 1) as u64).as_str());
        text.append("/");
        text.append(decimal_of(count as u64).as_str());
        text.append(")  ↑/↓ navigate · Enter select · Esc close");
        push_line(&mut lines, Line::of(Span::new(text, Style::colour(DIM))));
    }
    lines
}

/// Whatever is selected is among the rows that are shown.
pub proof fn the_selected_row_is_shown(selected: int, count: int, height: int)
    requires
        0 <= selected < count,
        height > 0,
    ensures
        ({
            let w = window(selected, count, height);
            &&& 0 <= w.0
            &&& w.0 <= selected < w.0 + w.1
            &&& w.0 + w.1 <= count
            &&& w.1 <= COMMAND_MENU_MAX_VISIBLE
        }),
{
}

} // verus!
