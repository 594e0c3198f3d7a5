//! Markdown as styled lines of a width. Whole messages and those that are still
//! coming in are shown in the same way.
use crate::json::{
    json_holds, json_is_at, json_number_at, json_number_of, json_text_at, json_text_of,
};
use crate::text::{decimal, decimal_of, repeat, repeated, same, split, split_on, texts};
use crate::tui::style::{
    coloured, extend, extended, line_of, line_views, no_style, patched, span_views, Color, Line,
    LineView, Span, SpanView, Style,
};
use crate::tui::wrap::{
    at_least_one, broken, is_blank_line, less, margin, rich_views, text_width, width_of, wrap_line,
    RichLine, RichView,
};
use vstd::prelude::*;

verus! {

/// What the parser reads beside plain Markdown: tables, footnotes, struck text
/// and task lists, as the bits of `pulldown_cmark::Options`.
pub const OPTIONS: u32 = 30;

/// What a Markdown text consists of: the events of `pulldown_cmark::Parser`,
/// each as the JSON text that `serde_json::to_string` writes for it.
pub uninterp spec fn markdown_events(text: Seq<char>, options: u32) -> Seq<Seq<char>>;

/// The events of `pulldown_cmark::Parser::new_ext` with the options of
/// `pulldown_cmark::Options::from_bits_truncate`, each handed back as the JSON
/// text that `serde_json::to_string` writes for it.
#[verifier::external_body]
pub(crate) fn markdown_events_of(text: &str, options: u32) -> (r: Vec<String>)
    ensures
        texts(r@) == markdown_events(text@, options),
{
    let options = pulldown_cmark::Options::from_bits_truncate(options);
    pulldown_cmark::Parser::new_ext(text, options)
        .map(|event| serde_json::to_string(&event).unwrap_or_default())
        .collect()
}

/// What begins: a heading with its level, a block of code with its language, a
/// list with its first number, a link or an image with where it leads, and so
/// on.
#[derive(Debug, PartialEq, Eq)]
pub enum Tag {
    Heading(u8),
    BlockQuote,
    CodeBlock(String),
    List(Option<u64>),
    Item,
    Emphasis,
    Strong,
    Strikethrough,
    Link(String),
    Image(String),
    FootnoteDefinition(String),
    TableRow,
    DefinitionTitle,
    Definition,
    Other,
}

/// What ends.
#[derive(Debug, Clone, Copy, PartialEq, Eq, Structural)]
pub enum TagEnd {
    Paragraph,
    Heading,
    BlockQuote,
    CodeBlock,
    List,
    Item,
    Emphasis,
    Strong,
    Strikethrough,
    Link,
    Image,
    FootnoteDefinition,
    TableCell,
    TableRow,
    TableHead,
    Table,
    DefinitionTitle,
    Definition,
    Other,
}

/// A piece of a Markdown text.
#[derive(Debug, PartialEq, Eq)]
pub enum Event {
    Start(Tag),
    End(TagEnd),
    Text(String),
    Code(String),
    InlineMath(String),
    DisplayMath(String),
    FootnoteReference(String),
    SoftBreak,
    HardBreak,
    Rule,
    TaskListMarker(bool),
}

/// The view of what begins.
pub enum TagView {
    Heading(u8),
    BlockQuote,
    CodeBlock(Seq<char>),
    List(Option<u64>),
    Item,
    Emphasis,
    Strong,
    Strikethrough,
    Link(Seq<char>),
    Image(Seq<char>),
    FootnoteDefinition(Seq<char>),
    TableRow,
    DefinitionTitle,
    Definition,
    Other,
}

/// The view of a piece of a Markdown text.
pub enum EventView {
    Start(TagView),
    End(TagEnd),
    Text(Seq<char>),
    Code(Seq<char>),
    InlineMath(Seq<char>),
    DisplayMath(Seq<char>),
    FootnoteReference(Seq<char>),
    SoftBreak,
    HardBreak,
    Rule,
    TaskListMarker(bool),
}

impl View for Tag {
    type V = TagView;

    open spec fn view(&self) -> TagView {
        match *self {
            Tag::Heading(level) => TagView::Heading(level),
            Tag::BlockQuote => TagView::BlockQuote,
            Tag::CodeBlock(language) => TagView::CodeBlock(language@),
            Tag::List(start) => TagView::List(start),
            Tag::Item => TagView::Item,
            Tag::Emphasis => TagView::Emphasis,
            Tag::Strong => TagView::Strong,
            Tag::Strikethrough => TagView::Strikethrough,
            Tag::Link(url) => TagView::Link(url@),
            Tag::Image(url) => TagView::Image(url@),
            Tag::FootnoteDefinition(label) => TagView::FootnoteDefinition(label@),
            Tag::TableRow => TagView::TableRow,
            Tag::DefinitionTitle => TagView::DefinitionTitle,
            Tag::Definition => TagView::Definition,
            Tag::Other => TagView::Other,
        }
    }
}

impl View for Event {
    type V = EventView;

    open spec fn view(&self) -> EventView {
        match *self {
            Event::Start(tag) => EventView::Start(tag@),
            Event::End(tag) => EventView::End(tag),
            Event::Text(text) => EventView::Text(text@),
            Event::Code(text) => EventView::Code(text@),
            Event::InlineMath(text) => EventView::InlineMath(text@),
            Event::DisplayMath(text) => EventView::DisplayMath(text@),
            Event::FootnoteReference(label) => EventView::FootnoteReference(label@),
            Event::SoftBreak => EventView::SoftBreak,
            Event::HardBreak => EventView::HardBreak,
            Event::Rule => EventView::Rule,
            Event::TaskListMarker(checked) => EventView::TaskListMarker(checked),
        }
    }
}

/// The views of pieces of a Markdown text.
pub open spec fn event_views(v: Seq<Event>) -> Seq<EventView> {
    v.map_values(|e: Event| e@)
}

/// The level of a heading by its name.
pub open spec fn level_named(name: Seq<char>) -> u8 {
    if name == "H1"@ {
        1
    } else if name == "H2"@ {
        2
    } else if name == "H3"@ {
        3
    } else if name == "H4"@ {
        4
    } else if name == "H5"@ {
        5
    } else {
        6
    }
}

/// What begins, by the name of what holds nothing more.
pub open spec fn plain_tag(name: Seq<char>) -> TagView {
    if name == "Item"@ {
        TagView::Item
    } else if name == "Emphasis"@ {
        TagView::Emphasis
    } else if name == "Strong"@ {
        TagView::Strong
    } else if name == "Strikethrough"@ {
        TagView::Strikethrough
    } else if name == "TableRow"@ {
        TagView::TableRow
    } else if name == "DefinitionListTitle"@ {
        TagView::DefinitionTitle
    } else if name == "DefinitionListDefinition"@ {
        TagView::Definition
    } else {
        TagView::Other
    }
}

/// What begins with an event, given as a JSON text.
pub open spec fn tag_in(e: Seq<char>) -> TagView {
    match json_text_at(e, "/Start"@) {
        Some(name) => plain_tag(name),
        None => match json_text_at(e, "/Start/Heading/level"@) {
            Some(level) => TagView::Heading(level_named(level)),
            None => if json_holds(e, "/Start/BlockQuote"@) {
                TagView::BlockQuote
            } else if json_holds(e, "/Start/CodeBlock"@) {
                TagView::CodeBlock(
                    match json_text_at(e, "/Start/CodeBlock/Fenced"@) {
                        Some(language) => language,
                        None => Seq::empty(),
                    },
                )
            } else if json_holds(e, "/Start/List"@) {
                TagView::List(json_number_at(e, "/Start/List"@))
            } else {
                tag_with_text(e)
            },
        },
    }
}

/// What begins with a text of its own, with an event given as a JSON text.
pub open spec fn tag_with_text(e: Seq<char>) -> TagView {
    match json_text_at(e, "/Start/Link/dest_url"@) {
        Some(url) => TagView::Link(url),
        None => match json_text_at(e, "/Start/Image/dest_url"@) {
            Some(url) => TagView::Image(url),
            None => match json_text_at(e, "/Start/FootnoteDefinition"@) {
                Some(label) => TagView::FootnoteDefinition(label),
                None => TagView::Other,
            },
        },
    }
}

/// What ends, by its name.
pub open spec fn end_named(name: Seq<char>) -> TagEnd {
    if name == "Paragraph"@ {
        TagEnd::Paragraph
    } else if name == "CodeBlock"@ {
        TagEnd::CodeBlock
    } else if name == "Item"@ {
        TagEnd::Item
    } else if name == "Emphasis"@ {
        TagEnd::Emphasis
    } else if name == "Strong"@ {
        TagEnd::Strong
    } else if name == "Strikethrough"@ {
        TagEnd::Strikethrough
    } else if name == "Link"@ {
        TagEnd::Link
    } else if name == "Image"@ {
        TagEnd::Image
    } else if name == "FootnoteDefinition"@ {
        TagEnd::FootnoteDefinition
    } else if name == "TableCell"@ {
        TagEnd::TableCell
    } else if name == "TableRow"@ {
        TagEnd::TableRow
    } else if name == "TableHead"@ {
        TagEnd::TableHead
    } else if name == "Table"@ {
        TagEnd::Table
    } else if name == "DefinitionListTitle"@ {
        TagEnd::DefinitionTitle
    } else if name == "DefinitionListDefinition"@ {
        TagEnd::Definition
    } else {
        TagEnd::Other
    }
}

/// What ends with an event, given as a JSON text.
pub open spec fn end_in(e: Seq<char>) -> TagEnd {
    match json_text_at(e, "/End"@) {
        Some(name) => end_named(name),
        None => if json_holds(e, "/End/Heading"@) {
            TagEnd::Heading
        } else if json_holds(e, "/End/BlockQuote"@) {
            TagEnd::BlockQuote
        } else if json_holds(e, "/End/List"@) {
            TagEnd::List
        } else {
            TagEnd::Other
        },
    }
}

/// A piece that is a text, given as a JSON text.
pub open spec fn text_in(e: Seq<char>) -> Option<EventView> {
    match json_text_at(e, "/Text"@) {
        Some(text) => Some(EventView::Text(text)),
        None => match json_text_at(e, "/Code"@) {
            Some(text) => Some(EventView::Code(text)),
            None => match json_text_at(e, "/InlineMath"@) {
                Some(text) => Some(EventView::InlineMath(text)),
                None => match json_text_at(e, "/DisplayMath"@) {
                    Some(text) => Some(EventView::DisplayMath(text)),
                    None => match json_text_at(e, "/Html"@) {
                        Some(text) => Some(EventView::Text(text)),
                        None => match json_text_at(e, "/InlineHtml"@) {
                            Some(text) => Some(EventView::Text(text)),
                            None => match json_text_at(e, "/FootnoteReference"@) {
                                Some(label) => Some(EventView::FootnoteReference(label)),
                                None => None,
                            },
                        },
                    },
                },
            },
        },
    }
}

/// A piece of a Markdown text, given as a JSON text.
pub open spec fn event_in(e: Seq<char>) -> EventView {
    if json_holds(e, "/Start"@) {
        EventView::Start(tag_in(e))
    } else if json_holds(e, "/End"@) {
        EventView::End(end_in(e))
    } else {
        match text_in(e) {
            Some(event) => event,
            None => if e == "\"SoftBreak\""@ {
                EventView::SoftBreak
            } else if e == "\"HardBreak\""@ {
                EventView::HardBreak
            } else if e == "\"Rule\""@ {
                EventView::Rule
            } else {
                EventView::TaskListMarker(e == "{\"TaskListMarker\":true}"@)
            },
        }
    }
}

fn read_plain_tag(name: &str) -> (r: Tag)
    ensures
        r@ == plain_tag(name@),
{
    if same(name, "Item") {
        Tag::Item
    } else if same(name, "Emphasis") {
        Tag::Emphasis
    } else if same(name, "Strong") {
        Tag::Strong
    } else if same(name, "Strikethrough") {
        Tag::Strikethrough
    } else if same(name, "TableRow") {
        Tag::TableRow
    } else if same(name, "DefinitionListTitle") {
        Tag::DefinitionTitle
    } else if same(name, "DefinitionListDefinition") {
        Tag::Definition
    } else {
        Tag::Other
    }
}

fn read_level(name: &str) -> (r: u8)
    ensures
        r == level_named(name@),
{
    if same(name, "H1") {
        1
    } else if same(name, "H2") {
        2
    } else if same(name, "H3") {
        3
    } else if same(name, "H4") {
        4
    } else if same(name, "H5") {
        5
    } else {
        6
    }
}

fn read_tag(e: &str) -> (r: Tag)
    ensures
        r@ == tag_in(e@),
{
    match json_text_of(e, "/Start") {
        Some(name) => {
            return read_plain_tag(name.as_str());
        },
        None => {},
    }
    match json_text_of(e, "/Start/Heading/level") {
        Some(level) => {
            return Tag::Heading(read_level(level.as_str()));
        },
        None => {},
    }
    if json_is_at(e, "/Start/BlockQuote") {
        return Tag::BlockQuote;
    }
    if json_is_at(e, "/Start/CodeBlock") {
        return match json_text_of(e, "/Start/CodeBlock/Fenced") {
            Some(language) => Tag::CodeBlock(language),
            None => Tag::CodeBlock(String::new()),
        };
    }
    if json_is_at(e, "/Start/List") {
        return Tag::List(json_number_of(e, "/Start/List"));
    }
    match json_text_of(e, "/Start/Link/dest_url") {
        Some(url) => {
            return Tag::Link(url);
        },
        None => {},
    }
    match json_text_of(e, "/Start/Image/dest_url") {
        Some(url) => {
            return Tag::Image(url);
        },
        None => {},
    }
    match json_text_of(e, "/Start/FootnoteDefinition") {
        Some(label) => Tag::FootnoteDefinition(label),
        None => Tag::Other,
    }
}

fn read_end_name(name: &str) -> (r: TagEnd)
    ensures
        r == end_named(name@),
{
    if same(name, "Paragraph") {
        TagEnd::Paragraph
    } else if same(name, "CodeBlock") {
        TagEnd::CodeBlock
    } else if same(name, "Item") {
        TagEnd::Item
    } else if same(name, "Emphasis") {
        TagEnd::Emphasis
    } else if same(name, "Strong") {
        TagEnd::Strong
    } else if same(name, "Strikethrough") {
        TagEnd::Strikethrough
    } else if same(name, "Link") {
        TagEnd::Link
    } else if same(name, "Image") {
        TagEnd::Image
    } else if same(name, "FootnoteDefinition") {
        TagEnd::FootnoteDefinition
    } else if same(name, "TableCell") {
        TagEnd::TableCell
    } else if same(name, "TableRow") {
        TagEnd::TableRow
    } else if same(name, "TableHead") {
        TagEnd::TableHead
    } else if same(name, "Table") {
        TagEnd::Table
    } else if same(name, "DefinitionListTitle") {
        TagEnd::DefinitionTitle
    } else if same(name, "DefinitionListDefinition") {
        TagEnd::Definition
    } else {
        TagEnd::Other
    }
}

fn read_end(e: &str) -> (r: TagEnd)
    ensures
        r == end_in(e@),
{
    match json_text_of(e, "/End") {
        Some(name) => {
            return read_end_name(name.as_str());
        },
        None => {},
    }
    if json_is_at(e, "/End/Heading") {
        TagEnd::Heading
    } else if json_is_at(e, "/End/BlockQuote") {
        TagEnd::BlockQuote
    } else if json_is_at(e, "/End/List") {
        TagEnd::List
    } else {
        TagEnd::Other
    }
}

fn read_text(e: &str) -> (r: Option<Event>)
    ensures
        match text_in(e@) {
            Some(event) => r matches Some(found) && found@ == event,
            None => r is None,
        },
{
    match json_text_of(e, "/Text") {
        Some(text) => {
            return Some(Event::Text(text));
        },
        None => {},
    }
    match json_text_of(e, "/Code") {
        Some(text) => {
            return Some(Event::Code(text));
        },
        None => {},
    }
    match json_text_of(e, "/InlineMath") {
        Some(text) => {
            return Some(Event::InlineMath(text));
        },
        None => {},
    }
    match json_text_of(e, "/DisplayMath") {
        Some(text) => {
            return Some(Event::DisplayMath(text));
        },
        None => {},
    }
    match json_text_of(e, "/Html") {
        Some(text) => {
            return Some(Event::Text(text));
        },
        None => {},
    }
    match json_text_of(e, "/InlineHtml") {
        Some(text) => {
            return Some(Event::Text(text));
        },
        None => {},
    }
    match json_text_of(e, "/FootnoteReference") {
        Some(label) => Some(Event::FootnoteReference(label)),
        None => None,
    }
}

/// Reads a piece of a Markdown text from a JSON text.
pub fn read_event(e: &str) -> (r: Event)
    ensures
        r@ == event_in(e@),
{
    if json_is_at(e, "/Start") {
        return Event::Start(read_tag(e));
    }
    if json_is_at(e, "/End") {
        return Event::End(read_end(e));
    }
    match read_text(e) {
        Some(event) => {
            return event;
        },
        None => {},
    }
    if same(e, "\"SoftBreak\"") {
        Event::SoftBreak
    } else if same(e, "\"HardBreak\"") {
        Event::HardBreak
    } else if same(e, "\"Rule\"") {
        Event::Rule
    } else {
        Event::TaskListMarker(same(e, "{\"TaskListMarker\":true}"))
    }
}

/// An item of a list: what stands before it, and whether a line of it is
/// written.
#[derive(Debug)]
struct ItemState {
    marker: String,
    first_line_written: bool,
}

/// The view of an item of a list.
#[verifier::ext_equal]
pub struct ItemView {
    pub marker: Seq<char>,
    pub written: bool,
}

impl View for ItemState {
    type V = ItemView;

    closed spec fn view(&self) -> ItemView {
        ItemView { marker: self.marker@, written: self.first_line_written }
    }
}

spec fn item_views(v: Seq<ItemState>) -> Seq<ItemView> {
    v.map_values(|i: ItemState| i@)
}

/// What was read so far: the lines, the line that is being written, and what is
/// open.
#[verifier::ext_equal]
pub struct RenderView {
    pub base: Style,
    pub lines: Seq<RichView>,
    pub current: Seq<SpanView>,
    pub lists: Seq<Option<u64>>,
    pub items: Seq<ItemView>,
    pub links: Seq<Seq<char>>,
    pub quotes: usize,
    pub heading: Option<u8>,
    pub emphasis: usize,
    pub strong: usize,
    pub strike: usize,
    pub code: bool,
    pub images: usize,
}

/// Nothing was read.
pub open spec fn nothing_read(base: Style) -> RenderView {
    RenderView {
        base,
        lines: Seq::empty(),
        current: Seq::empty(),
        lists: Seq::empty(),
        items: Seq::empty(),
        links: Seq::empty(),
        quotes: 0,
        heading: None,
        emphasis: 0,
        strong: 0,
        strike: 0,
        code: false,
        images: 0,
    }
}

/// One deeper.
pub open spec fn deeper(n: usize) -> usize {
    if n == usize::MAX {
        n
    } else {
        (n + 1) as usize
    }
}

/// One less deep.
pub open spec fn higher(n: usize) -> usize {
    if n == 0 {
        0
    } else {
        (n - 1) as usize
    }
}

/// The colour of a heading.
pub open spec fn heading_colour(level: u8) -> Color {
    if level == 1 {
        Color::LightGreen
    } else if level == 2 {
        Color::LightCyan
    } else if level == 3 {
        Color::LightBlue
    } else {
        Color::Cyan
    }
}

/// The style of the text that comes next.
pub open spec fn style_now(s: RenderView) -> Style {
    let a = match s.heading {
        Some(level) => patched(
            s.base,
            Style { fg: Some(heading_colour(level)), bold: true, ..no_style() },
        ),
        None => s.base,
    };
    let b = Style {
        italic: a.italic || s.emphasis > 0,
        bold: a.bold || s.strong > 0,
        crossed_out: a.crossed_out || s.strike > 0,
        ..a
    };
    if s.links.len() > 0 && s.images == 0 {
        patched(b, Style { fg: Some(Color::Cyan), underlined: true, ..no_style() })
    } else {
        b
    }
}

/// More text in the line that is being written.
pub open spec fn adding(s: RenderView, text: Seq<char>, style: Style) -> RenderView {
    RenderView { current: extended(s.current, text, style), ..s }
}

/// What stands before the first part of a line and before its other parts: the
/// quotes that it lies in, and its place in a list.
pub open spec fn prefixes(s: RenderView) -> (Seq<char>, Seq<char>) {
    let quote = repeated("│ "@, s.quotes as nat);
    let code = if s.code {
        "  "@
    } else {
        ""@
    };
    if s.items.len() > 0 {
        let item = s.items.last();
        let indent = repeated("  "@, higher_count(s.lists.len()));
        let rest = repeated(" "@, text_width(item.marker) as nat);
        let marker = if item.written {
            rest
        } else {
            item.marker
        };
        (quote + indent + marker + code, quote + indent + rest + code)
    } else {
        (quote + code, quote + code)
    }
}

/// One less, down to none.
pub open spec fn higher_count(n: nat) -> nat {
    if n == 0 {
        0
    } else {
        (n - 1) as nat
    }
}

/// The line that is being written is done, if there is one.
pub open spec fn line_done(s: RenderView) -> RenderView {
    if s.current.len() == 0 {
        s
    } else {
        let p = prefixes(s);
        RenderView {
            lines: s.lines.push(
                RichView {
                    spans: s.current,
                    first: p.0,
                    continuation: p.1,
                    keep: s.code,
                    rule: false,
                },
            ),
            current: Seq::empty(),
            items: if s.items.len() > 0 {
                s.items.drop_last().push(ItemView { written: true, ..s.items.last() })
            } else {
                s.items
            },
            ..s
        }
    }
}

/// A line without text.
pub open spec fn blank_line() -> RichView {
    RichView {
        spans: Seq::empty(),
        first: Seq::empty(),
        continuation: Seq::empty(),
        keep: false,
        rule: false,
    }
}

/// A line without text comes next, unless there is one already.
pub open spec fn spaced(s: RenderView) -> RenderView {
    if s.lines.len() > 0 && is_blank_line(s.lines.last()) {
        s
    } else {
        RenderView { lines: s.lines.push(blank_line()), ..s }
    }
}

/// A rule comes next.
pub open spec fn ruled(s: RenderView) -> RenderView {
    let p = prefixes(s);
    RenderView {
        lines: s.lines.push(
            RichView {
                spans: Seq::empty(),
                first: p.0,
                continuation: p.1,
                keep: false,
                rule: true,
            },
        ),
        ..s
    }
}

/// The lines of a block of code, of which each but the last is done.
pub open spec fn code_lines(s: RenderView, parts: Seq<Seq<char>>, style: Style) -> RenderView
    decreases parts.len(),
{
    if parts.len() == 0 {
        s
    } else {
        let before = code_lines(s, parts.drop_last(), style);
        let next = if parts.len() > 1 {
            line_done(before)
        } else {
            before
        };
        adding(next, parts.last(), style)
    }
}

/// The style of a block of code.
pub open spec fn code_style(s: RenderView) -> Style {
    patched(
        style_now(s),
        Style { fg: Some(Color::LightCyan), bg: Some(Color::Rgb(28, 28, 28)), ..no_style() },
    )
}

/// More text.
pub open spec fn text_read(s: RenderView, text: Seq<char>) -> RenderView {
    if s.code {
        code_lines(s, split_on(text, '\n'), code_style(s))
    } else {
        adding(s, text, style_now(s))
    }
}

/// What stands before the next item of the innermost list.
pub open spec fn marker_of(lists: Seq<Option<u64>>) -> Seq<char> {
    if lists.len() == 0 {
        "• "@
    } else {
        match lists.last() {
            Some(number) => decimal(number as nat) + ". "@,
            None => "• "@,
        }
    }
}

/// The lists once the innermost one has one item more.
pub open spec fn counted(lists: Seq<Option<u64>>) -> Seq<Option<u64>> {
    if lists.len() == 0 {
        lists
    } else {
        match lists.last() {
            Some(number) => lists.drop_last().push(
                Some(
                    if number == u64::MAX {
                        number
                    } else {
                        (number + 1) as u64
                    },
                ),
            ),
            None => lists,
        }
    }
}

/// What was read once something begins.
pub open spec fn started(s: RenderView, tag: TagView) -> RenderView {
    match tag {
        TagView::Heading(level) => RenderView { heading: Some(level), ..line_done(s) },
        TagView::BlockQuote => {
            let done = line_done(s);
            RenderView { quotes: deeper(done.quotes), ..done }
        },
        TagView::CodeBlock(language) => {
            let open = RenderView { code: true, ..line_done(s) };
            if language.len() == 0 {
                open
            } else {
                line_done(adding(open, language, margin(open.base)))
            }
        },
        TagView::List(start) => {
            let done = line_done(s);
            RenderView { lists: done.lists.push(start), ..done }
        },
        TagView::Item => {
            let done = line_done(s);
            RenderView {
                lists: counted(done.lists),
                items: done.items.push(
                    ItemView { marker: marker_of(done.lists), written: false },
                ),
                ..done
            }
        },
        TagView::Emphasis => RenderView { emphasis: deeper(s.emphasis), ..s },
        TagView::Strong => RenderView { strong: deeper(s.strong), ..s },
        TagView::Strikethrough => RenderView { strike: deeper(s.strike), ..s },
        TagView::Link(url) => RenderView { links: s.links.push(url), ..s },
        TagView::Image(url) => {
            let open = RenderView {
                images: deeper(s.images),
                links: s.links.push(url),
                ..s
            };
            adding(open, "[image: "@, style_now(open))
        },
        TagView::FootnoteDefinition(label) => {
            let done = line_done(s);
            adding(
                done,
                "[^"@ + label + "]: "@,
                patched(style_now(done), coloured(Color::Cyan)),
            )
        },
        TagView::TableRow => {
            let done = line_done(s);
            adding(done, "│ "@, margin(done.base))
        },
        TagView::DefinitionTitle => {
            let done = line_done(s);
            RenderView { strong: deeper(done.strong), ..done }
        },
        TagView::Definition => {
            let done = line_done(s);
            adding(done, "  "@, done.base)
        },
        TagView::Other => s,
    }
}

/// What was read once a link ends: where it leads is written behind it.
pub open spec fn link_done(s: RenderView) -> RenderView {
    if s.links.len() == 0 {
        s
    } else {
        let url = s.links.last();
        let left = RenderView { links: s.links.drop_last(), ..s };
        if url.len() == 0 {
            left
        } else {
            adding(left, " ("@ + url + ")"@, margin(left.base))
        }
    }
}

/// What was read once something ends.
pub open spec fn ended(s: RenderView, tag: TagEnd) -> RenderView {
    match tag {
        TagEnd::Paragraph => {
            let done = line_done(s);
            if done.items.len() == 0 {
                spaced(done)
            } else {
                done
            }
        },
        TagEnd::Heading => spaced(RenderView { heading: None, ..line_done(s) }),
        TagEnd::BlockQuote => {
            let done = line_done(s);
            spaced(RenderView { quotes: higher(done.quotes), ..done })
        },
        TagEnd::CodeBlock => spaced(RenderView { code: false, ..line_done(s) }),
        TagEnd::List => {
            let done = line_done(s);
            let left = RenderView {
                lists: if done.lists.len() == 0 {
                    done.lists
                } else {
                    done.lists.drop_last()
                },
                ..done
            };
            if left.lists.len() == 0 {
                spaced(left)
            } else {
                left
            }
        },
        TagEnd::Item => {
            let done = line_done(s);
            RenderView {
                items: if done.items.len() == 0 {
                    done.items
                } else {
                    done.items.drop_last()
                },
                ..done
            }
        },
        TagEnd::Emphasis => RenderView { emphasis: higher(s.emphasis), ..s },
        TagEnd::Strong => RenderView { strong: higher(s.strong), ..s },
        TagEnd::Strikethrough => RenderView { strike: higher(s.strike), ..s },
        TagEnd::Link => link_done(s),
        TagEnd::Image => {
            let left = link_done(adding(s, "]"@, style_now(s)));
            RenderView { images: higher(left.images), ..left }
        },
        TagEnd::FootnoteDefinition => spaced(line_done(s)),
        TagEnd::TableCell => adding(s, " │ "@, margin(s.base)),
        TagEnd::TableRow => line_done(s),
        TagEnd::TableHead => ruled(s),
        TagEnd::Table => spaced(s),
        TagEnd::DefinitionTitle => line_done(RenderView { strong: higher(s.strong), ..s }),
        TagEnd::Definition => line_done(s),
        TagEnd::Other => s,
    }
}

/// What was read after one more piece.
pub open spec fn handled(s: RenderView, event: EventView) -> RenderView {
    match event {
        EventView::Start(tag) => started(s, tag),
        EventView::End(tag) => ended(s, tag),
        EventView::Text(text) => text_read(s, text),
        EventView::Code(text) => adding(
            s,
            text,
            patched(
                style_now(s),
                Style {
                    fg: Some(Color::LightMagenta),
                    bg: Some(Color::Rgb(35, 35, 35)),
                    ..no_style()
                },
            ),
        ),
        EventView::InlineMath(text) => adding(
            s,
            "$"@ + text + "$"@,
            patched(style_now(s), coloured(Color::Magenta)),
        ),
        EventView::DisplayMath(text) => {
            let done = line_done(s);
            spaced(
                line_done(
                    adding(
                        done,
                        "$$"@ + text + "$$"@,
                        patched(style_now(done), coloured(Color::Magenta)),
                    ),
                ),
            )
        },
        EventView::FootnoteReference(label) => adding(
            s,
            "[^"@ + label + "]"@,
            patched(style_now(s), coloured(Color::Cyan)),
        ),
        EventView::SoftBreak => adding(s, " "@, style_now(s)),
        EventView::HardBreak => line_done(s),
        EventView::Rule => spaced(ruled(line_done(s))),
        EventView::TaskListMarker(checked) => adding(
            s,
            if checked {
                "[x] "@
            } else {
                "[ ] "@
            },
            patched(style_now(s), coloured(Color::Cyan)),
        ),
    }
}

/// What was read after all pieces.
pub open spec fn all_handled(s: RenderView, events: Seq<EventView>) -> RenderView
    decreases events.len(),
{
    if events.len() == 0 {
        s
    } else {
        handled(all_handled(s, events.drop_last()), events.last())
    }
}

/// Lines without those at the end that have no text.
pub open spec fn without_blank_end(lines: Seq<RichView>) -> Seq<RichView>
    decreases lines.len(),
{
    if lines.len() > 0 && is_blank_line(lines.last()) {
        without_blank_end(lines.drop_last())
    } else {
        lines
    }
}

/// All lines, broken.
pub open spec fn all_broken(lines: Seq<RichView>, width: usize, base: Style) -> Seq<LineView>
    decreases lines.len(),
{
    if lines.len() == 0 {
        Seq::empty()
    } else {
        all_broken(lines.drop_last(), width, base) + broken(lines.last(), width, base)
    }
}

/// The lines that the pieces of a Markdown text make; at least one.
pub open spec fn rendered(events: Seq<EventView>, width: usize, base: Style) -> Seq<LineView> {
    let read = line_done(all_handled(nothing_read(base), events));
    let out = all_broken(without_blank_end(read.lines), width, base);
    if out.len() == 0 {
        seq![line_of(Seq::empty())]
    } else {
        out
    }
}

/// The pieces of a Markdown text.
pub open spec fn pieces(markdown: Seq<char>) -> Seq<EventView> {
    markdown_events(markdown, OPTIONS).map_values(|e: Seq<char>| event_in(e))
}

struct Renderer {
    base_style: Style,
    lines: Vec<RichLine>,
    current: Vec<Span>,
    lists: Vec<Option<u64>>,
    items: Vec<ItemState>,
    links: Vec<String>,
    quote_depth: usize,
    heading: Option<u8>,
    emphasis_depth: usize,
    strong_depth: usize,
    strike_depth: usize,
    code_block: bool,
    image_depth: usize,
}

impl View for Renderer {
    type V = RenderView;

    closed spec fn view(&self) -> RenderView {
        RenderView {
            base: self.base_style,
            lines: rich_views(self.lines@),
            current: span_views(self.current@),
            lists: self.lists@,
            items: item_views(self.items@),
            links: texts(self.links@),
            quotes: self.quote_depth,
            heading: self.heading,
            emphasis: self.emphasis_depth,
            strong: self.strong_depth,
            strike: self.strike_depth,
            code: self.code_block,
            images: self.image_depth,
        }
    }
}

/// A text between two others.
fn between(before: &str, text: &str, after: &str) -> (r: String)
    ensures
        r@ == before@ + text@ + after@,
{
    let mut out: String = before.to_owned();
    out.append(text);
    out.append(after);
    out
}

impl Renderer {
    fn new(base_style: Style) -> (r: Self)
        ensures
            r@ == nothing_read(base_style),
    {
        let out = Renderer {
            base_style,
            lines: Vec::new(),
            current: Vec::new(),
            lists: Vec::new(),
            items: Vec::new(),
            links: Vec::new(),
            quote_depth: 0,
            heading: None,
            emphasis_depth: 0,
            strong_depth: 0,
            strike_depth: 0,
            code_block: false,
            image_depth: 0,
        };
        assert(out@ =~= nothing_read(base_style));
        out
    }

    fn current_style(&self) -> (r: Style)
        ensures
            r == style_now(self@),
    {
        let mut style = match self.heading {
            Some(level) => {
                let colour = if level == 1 {
                    Color::LightGreen
                } else if level == 2 {
                    Color::LightCyan
                } else if level == 3 {
                    Color::LightBlue
                } else {
                    Color::Cyan
                };
                self.base_style.patch(Style::bold(colour))
            },
            None => self.base_style,
        };
        if self.emphasis_depth > 0 {
            style.italic = true;
        }
        if self.strong_depth > 0 {
            style.bold = true;
        }
        if self.strike_depth > 0 {
            style.crossed_out = true;
        }
        assert(self@.links.len() == self.links@.len());
        if self.links.len() > 0 && self.image_depth == 0 {
            let mut link = Style::colour(Color::Cyan);
            link.underlined = true;
            style = style.patch(link);
        }
        style
    }

    fn append(&mut self, text: &str, style: Style)
        ensures
            final(self)@ == adding(old(self)@, text@, style),
    {
        extend(&mut self.current, text, style);
    }

    fn prefixes(&self) -> (r: (String, String))
        ensures
            (r.0@, r.1@) == prefixes(self@),
    {
        let quote = repeat("│ ", self.quote_depth);
        let code = if self.code_block {
            "  "
        } else {
            ""
        };
        let count: usize = self.items.len();
        assert(self@.items.len() == count);
        if count > 0 {
            let item = &self.items[count - 1];
            assert(self@.items.last() == item@);
            let indent = repeat("  ", self.lists.len().saturating_sub(1));
            let rest = repeat(" ", width_of(item.marker.as_str()));
            let mut first: String = quote.clone();
            first.append(indent.as_str());
            if item.first_line_written {
                first.append(rest.as_str());
            } else {
                first.append(item.marker.as_str());
            }
            first.append(code);
            let mut continuation: String = quote;
            continuation.append(indent.as_str());
            continuation.append(rest.as_str());
            continuation.append(code);
            (first, continuation)
        } else {
            let mut first: String = quote;
            first.append(code);
            let continuation: String = first.clone();
            (first, continuation)
        }
    }

    fn push_line(&mut self, line: RichLine)
        ensures
            final(self)@ == (RenderView { lines: old(self)@.lines.push(line@), ..old(self)@ }),
    {
        let ghost before = self@.lines;
        self.lines.push(line);
        assert(self@.lines =~= before.push(line@));
    }

    fn flush_line(&mut self)
        ensures
            final(self)@ == line_done(old(self)@),
    {
        let ghost s = self@;
        assert(s.current.len() == self.current@.len());
        if self.current.len() == 0 {
            return;
        }
        let (first_prefix, continuation_prefix) = self.prefixes();
        let mut spans: Vec<Span> = Vec::new();
        std::mem::swap(&mut self.current, &mut spans);
        assert(self@.current =~= Seq::<SpanView>::empty());
        let preserve_whitespace = self.code_block;
        self.push_line(
            RichLine {
                spans,
                first_prefix,
                continuation_prefix,
                preserve_whitespace,
                rule: false,
            },
        );
        let count: usize = self.items.len();
        assert(s.items.len() == count);
        if count > 0 {
            let marker = self.items[count - 1].marker.clone();
            let item = ItemState { marker, first_line_written: true };
            self.items.set(count - 1, item);
            assert(self@.items =~= s.items.drop_last().push(
                ItemView { written: true, ..s.items.last() },
            ));
        }
        assert(self@ =~= line_done(s));
    }

    fn push_blank(&mut self)
        ensures
            final(self)@ == spaced(old(self)@),
    {
        let count: usize = self.lines.len();
        assert(self@.lines.len() == count);
        if count > 0 {
            let last = &self.lines[count - 1];
            assert(self@.lines.last() == last@);
            assert(last@.spans.len() == last.spans@.len());
            if last.spans.len() == 0 && !last.rule {
                return;
            }
        }
        let line = RichLine {
            spans: Vec::new(),
            first_prefix: String::new(),
            continuation_prefix: String::new(),
            preserve_whitespace: false,
            rule: false,
        };
        assert(line@ =~= blank_line());
        self.push_line(line);
    }

    fn push_rule(&mut self)
        ensures
            final(self)@ == ruled(old(self)@),
    {
        let (first_prefix, continuation_prefix) = self.prefixes();
        let line = RichLine {
            spans: Vec::new(),
            first_prefix,
            continuation_prefix,
            preserve_whitespace: false,
            rule: true,
        };
        assert(line@.spans =~= Seq::<SpanView>::empty());
        self.push_line(line);
    }

    fn append_text(&mut self, text: &str)
        ensures
            final(self)@ == text_read(old(self)@, text@),
    {
        let style = self.current_style();
        if !self.code_block {
            self.append(text, style);
            return;
        }
        let mut code = Style::colour(Color::LightCyan);
        code.bg = Some(Color::Rgb(28, 28, 28));
        let style = style.patch(code);
        let ghost s = self@;
        let parts = split(text, '\n');
        let ghost all = texts(parts@);
        let mut i: usize = 0;
        assert(all.take(0) =~= Seq::<Seq<char>>::empty());
        while i < parts.len()
            invariant
                i <= parts.len(),
                all == texts(parts@),
                s == old(self)@,
                self@ == code_lines(s, all.take(i as int), style),
            decreases parts.len() - i,
        {
            if i > 0 {
                self.flush_line();
            }
            self.append(parts[i].as_str(), style);
            proof {
                let now = all.take(i + 1);
                assert(now.drop_last() =~= all.take(i as int));
                assert(now.last() == parts@[i as int]@);
            }
            i += 1;
        }
        assert(all.take(i as int) =~= all);
    }

    /// What stands before the next item of the innermost list, which then
    /// counts on.
    fn next_marker(&mut self) -> (r: String)
        ensures
            r@ == marker_of(old(self)@.lists),
            final(self)@ == (RenderView { lists: counted(old(self)@.lists), ..old(self)@ }),
    {
        let count: usize = self.lists.len();
        let ghost before = self.lists@;
        if count == 0 {
            return "• ".to_owned();
        }
        match self.lists[count - 1] {
            Some(number) => {
                let mut marker: String = decimal_of(number);
                marker.append(". ");
                self.lists.set(count - 1, Some(number.saturating_add(1)));
                assert(self.lists@ =~= counted(before));
                marker
            },
            None => "• ".to_owned(),
        }
    }

    fn push_link(&mut self, url: String)
        ensures
            final(self)@ == (RenderView { links: old(self)@.links.push(url@), ..old(self)@ }),
    {
        let ghost before = self@.links;
        self.links.push(url);
        assert(self@.links =~= before.push(url@));
    }

    fn start(&mut self, tag: Tag)
        ensures
            final(self)@ == started(old(self)@, tag@),
    {
        match tag {
            Tag::Heading(level) => {
                self.flush_line();
                self.heading = Some(level);
            },
            Tag::BlockQuote => {
                self.flush_line();
                self.quote_depth = self.quote_depth.saturating_add(1);
            },
            Tag::CodeBlock(language) => {
                self.flush_line();
                self.code_block = true;
                if !language.as_str().is_empty() {
                    let style = self.base_style.patch(Style::colour(Color::DarkGray));
                    self.append(language.as_str(), style);
                    self.flush_line();
                }
            },
            Tag::List(start) => {
                self.flush_line();
                self.lists.push(start);
            },
            Tag::Item => {
                self.flush_line();
                let marker = self.next_marker();
                let ghost before = self@.items;
                let item = ItemState { marker, first_line_written: false };
                self.items.push(item);
                assert(self@.items =~= before.push(item@));
            },
            Tag::Emphasis => {
                self.emphasis_depth = self.emphasis_depth.saturating_add(1);
            },
            Tag::Strong => {
                self.strong_depth = self.strong_depth.saturating_add(1);
            },
            Tag::Strikethrough => {
                self.strike_depth = self.strike_depth.saturating_add(1);
            },
            Tag::Link(url) => {
                self.push_link(url);
            },
            Tag::Image(url) => {
                self.image_depth = self.image_depth.saturating_add(1);
                self.push_link(url);
                let style = self.current_style();
                self.append("[image: ", style);
            },
            Tag::FootnoteDefinition(label) => {
                self.flush_line();
                let style = self.current_style().patch(Style::colour(Color::Cyan));
                self.append(between("[^", label.as_str(), "]: ").as_str(), style);
            },
            Tag::TableRow => {
                self.flush_line();
                let style = self.base_style.patch(Style::colour(Color::DarkGray));
                self.append("│ ", style);
            },
            Tag::DefinitionTitle => {
                self.flush_line();
                self.strong_depth = self.strong_depth.saturating_add(1);
            },
            Tag::Definition => {
                self.flush_line();
                let style = self.base_style;
                self.append("  ", style);
            },
            Tag::Other => {},
        }
    }

    fn finish_link(&mut self)
        ensures
            final(self)@ == link_done(old(self)@),
    {
        let ghost before = self@.links;
        assert(before.len() == self.links@.len());
        match self.links.pop() {
            Some(url) => {
                assert(before.last() == url@);
                assert(self@.links =~= before.drop_last());
                if url.as_str().is_empty() {
                    return;
                }
                let style = self.base_style.patch(Style::colour(Color::DarkGray));
                self.append(between(" (", url.as_str(), ")").as_str(), style);
            },
            None => {
                assert(self@.links =~= before);
            },
        }
    }

    fn end(&mut self, tag: TagEnd)
        ensures
            final(self)@ == ended(old(self)@, tag),
    {
        match tag {
            TagEnd::Paragraph => {
                self.flush_line();
                assert(self@.items.len() == self.items@.len());
                if self.items.len() == 0 {
                    self.push_blank();
                }
            },
            TagEnd::Heading => {
                self.flush_line();
                self.heading = None;
                self.push_blank();
            },
            TagEnd::BlockQuote => {
                self.flush_line();
                self.quote_depth = self.quote_depth.saturating_sub(1);
                self.push_blank();
            },
            TagEnd::CodeBlock => {
                self.flush_line();
                self.code_block = false;
                self.push_blank();
            },
            TagEnd::List => {
                self.flush_line();
                let ghost before = self.lists@;
                let _list = self.lists.pop();
                assert(self.lists@ =~= if before.len() == 0 {
                    before
                } else {
                    before.drop_last()
                });
                if self.lists.len() == 0 {
                    self.push_blank();
                }
            },
            TagEnd::Item => {
                self.flush_line();
                let ghost before = self@.items;
                assert(before.len() == self.items@.len());
                let _item = self.items.pop();
                assert(self@.items =~= if before.len() == 0 {
                    before
                } else {
                    before.drop_last()
                });
            },
            TagEnd::Emphasis => {
                self.emphasis_depth = self.emphasis_depth.saturating_sub(1);
            },
            TagEnd::Strong => {
                self.strong_depth = self.strong_depth.saturating_sub(1);
            },
            TagEnd::Strikethrough => {
                self.strike_depth = self.strike_depth.saturating_sub(1);
            },
            TagEnd::Link => {
                self.finish_link();
            },
            TagEnd::Image => {
                let style = self.current_style();
                self.append("]", style);
                self.finish_link();
                self.image_depth = self.image_depth.saturating_sub(1);
            },
            TagEnd::FootnoteDefinition => {
                self.flush_line();
                self.push_blank();
            },
            TagEnd::TableCell => {
                let style = self.base_style.patch(Style::colour(Color::DarkGray));
                self.append(" │ ", style);
            },
            TagEnd::TableRow => {
                self.flush_line();
            },
            TagEnd::TableHead => {
                self.push_rule();
            },
            TagEnd::Table => {
                self.push_blank();
            },
            TagEnd::DefinitionTitle => {
                self.strong_depth = self.strong_depth.saturating_sub(1);
                self.flush_line();
            },
            TagEnd::Definition => {
                self.flush_line();
            },
            TagEnd::Other => {},
        }
    }

    fn handle(&mut self, event: Event)
        ensures
            final(self)@ == handled(old(self)@, event@),
    {
        match event {
            Event::Start(tag) => {
                self.start(tag);
            },
            Event::End(tag) => {
                self.end(tag);
            },
            Event::Text(text) => {
                self.append_text(text.as_str());
            },
            Event::Code(text) => {
                let mut code = Style::colour(Color::LightMagenta);
                code.bg = Some(Color::Rgb(35, 35, 35));
                let style = self.current_style().patch(code);
                self.append(text.as_str(), style);
            },
            Event::InlineMath(text) => {
                let style = self.current_style().patch(Style::colour(Color::Magenta));
                self.append(between("$", text.as_str(), "$").as_str(), style);
            },
            Event::DisplayMath(text) => {
                self.flush_line();
                let style = self.current_style().patch(Style::colour(Color::Magenta));
                self.append(between("$$", text.as_str(), "$$").as_str(), style);
                self.flush_line();
                self.push_blank();
            },
            Event::FootnoteReference(label) => {
                let style = self.current_style().patch(Style::colour(Color::Cyan));
                self.append(between("[^", label.as_str(), "]").as_str(), style);
            },
            Event::SoftBreak => {
                let style = self.current_style();
                self.append(" ", style);
            },
            Event::HardBreak => {
                self.flush_line();
            },
            Event::Rule => {
                self.flush_line();
                self.push_rule();
                self.push_blank();
            },
            Event::TaskListMarker(checked) => {
                let style = self.current_style().patch(Style::colour(Color::Cyan));
                self.append(
                    if checked {
                        "[x] "
                    } else {
                        "[ ] "
                    },
                    style,
                );
            },
        }
    }

    fn finish(self, width: usize) -> (r: Vec<Line>)
        ensures
            ({
                let out = all_broken(
                    without_blank_end(line_done(self@).lines),
                    width,
                    self@.base,
                );
                line_views(r@) == (if out.len() == 0 {
                    seq![line_of(Seq::empty())]
                } else {
                    out
                })
            }),
    {
        let mut this = self;
        let base_style = this.base_style;
        this.flush_line();
        let ghost all = this@.lines;
        let mut count: usize = this.lines.len();
        assert(all.take(count as int) =~= all);
        while count > 0 && this.lines[count - 1].spans.len() == 0 && !this.lines[count - 1].rule
            invariant
                count <= this.lines@.len(),
                all == rich_views(this.lines@),
                without_blank_end(all) == without_blank_end(all.take(count as int)),
            decreases count,
        {
            proof {
                let last = all.take(count as int).last();
                assert(last == this.lines@[count - 1]@);
                assert(last.spans.len() == this.lines@[count - 1].spans@.len());
                assert(all.take(count as int).drop_last() =~= all.take(count - 1));
            }
            count -= 1;
        }
        proof {
            if count > 0 {
                let last = all.take(count as int).last();
                assert(last == this.lines@[count - 1]@);
                assert(last.spans.len() == this.lines@[count - 1].spans@.len());
            }
            assert(without_blank_end(all) == all.take(count as int));
        }
        let mut output: Vec<Line> = Vec::new();
        let mut i: usize = 0;
        assert(line_views(output@) =~= all_broken(all.take(0), width, base_style));
        while i < count
            invariant
                i <= count <= this.lines@.len(),
                all == rich_views(this.lines@),
                line_views(output@) == all_broken(all.take(i as int), width, base_style),
            decreases count - i,
        {
            let mut more = wrap_line(&this.lines[i], width, base_style);
            proof {
                let now = all.take(i + 1);
                assert(now.drop_last() =~= all.take(i as int));
                assert(now.last() == this.lines@[i as int]@);
                assert(line_views(output@ + more@) =~= line_views(output@) + line_views(more@));
            }
            output.append(&mut more);
            i += 1;
        }
        assert(line_views(output@).len() == output@.len());
        if output.len() == 0 {
            output.push(Line::blank());
            assert(line_views(output@) =~= seq![line_of(Seq::empty())]);
        }
        output
    }
}

/// The lines that the pieces of a Markdown text make.
pub fn render_events(events: Vec<Event>, width: usize, base_style: Style) -> (r: Vec<Line>)
    ensures
        line_views(r@) == rendered(event_views(events@), at_least_one(width), base_style),
{
    let ghost all = event_views(events@);
    let ghost start = nothing_read(base_style);
    let mut renderer = Renderer::new(base_style);
    assert(all.take(0) =~= Seq::<EventView>::empty());
    for event in it: events
        invariant
            it.seq() == events@,
            all == event_views(events@),
            renderer@ == all_handled(start, all.take(it.index() as int)),
    {
        let ghost i = it.index() as int;
        proof {
            let now = all.take(i + 1);
            assert(now.drop_last() =~= all.take(i));
            assert(now.last() == event@);
        }
        renderer.handle(event);
    }
    assert(all.take(all.len() as int) =~= all);
    proof {
        lemma_base_stays(start, all);
    }
    renderer.finish(if width == 0 {
        1
    } else {
        width
    })
}

/// Renders Markdown into styled lines of a width.
pub fn render(markdown: &str, width: usize, base_style: Style) -> (r: Vec<Line>)
    ensures
        line_views(r@) == rendered(pieces(markdown@), at_least_one(width), base_style),
{
    let found = markdown_events_of(markdown, OPTIONS);
    let ghost all = pieces(markdown@);
    let mut events: Vec<Event> = Vec::new();
    let mut i: usize = 0;
    assert(texts(found@).len() == found@.len());
    assert(event_views(events@) =~= all.take(0));
    while i < found.len()
        invariant
            i <= found.len(),
            found@.len() == all.len(),
            texts(found@) == markdown_events(markdown@, OPTIONS),
            all == pieces(markdown@),
            event_views(events@) == all.take(i as int),
        decreases found.len() - i,
    {
        let event = read_event(found[i].as_str());
        assert(texts(found@)[i as int] == found@[i as int]@);
        assert(event@ == all[i as int]);
        assert(event_views(events@.push(event)) =~= event_views(events@).push(event@));
        events.push(event);
        i += 1;
        assert(all.take(i as int) =~= all.take(i - 1).push(all[i - 1]));
    }
    assert(all.take(i as int) =~= all);
    render_events(events, width, base_style)
}

proof fn lemma_code_base(s: RenderView, parts: Seq<Seq<char>>, style: Style)
    ensures
        code_lines(s, parts, style).base == s.base,
    decreases parts.len(),
{
    if parts.len() > 0 {
        lemma_code_base(s, parts.drop_last(), style);
    }
}

proof fn lemma_base_stays(s: RenderView, events: Seq<EventView>)
    ensures
        all_handled(s, events).base == s.base,
    decreases events.len(),
{
    if events.len() > 0 {
        lemma_base_stays(s, events.drop_last());
        let before = all_handled(s, events.drop_last());
        match events.last() {
            EventView::Text(text) => {
                lemma_code_base(before, split_on(text, '\n'), code_style(before));
            },
            _ => {},
        }
    }
}

/// However little a Markdown text holds, it makes at least one line.
pub proof fn there_is_always_a_line(events: Seq<EventView>, width: usize, base: Style)
    ensures
        rendered(events, width, base).len() >= 1,
{
}

} // verus!
