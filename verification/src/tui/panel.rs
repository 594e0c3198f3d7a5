//! The welcome, the status, the input and the message that is coming in.
use crate::text::{
    begins, byte_count, byte_len, chars_of, decimal, decimal_of, repeat, repeated, same, string_of,
    strip_end, strip_prefix, stripped_end, texts,
};
use crate::tui::app::{
    setup_prompt, streaming_slot, AgentState, App, AppInfo, AppMode, AppView, InfoView, SetupStage,
};
use crate::tui::event::{boundary, caret, caret_of};
use crate::tui::style::{
    bold_colour, coloured, line_of, line_views, push_line, push_span, span_views, Color, Line,
    LineView, Span, SpanView, Style, ACCENT, ACCENT_SOFT, DIM, ERROR, FG, INFO, SUCCESS, WARNING,
};
use crate::tui::ui::{
    input_text_style, message_lines, shown_message, span, StreamView, INPUT_PROMPT,
    WIDE_WELCOME_MIN_WIDTH,
};
use crate::tui::wrap::{columns, columns_of, less, more, text_width, width_of};
use vstd::prelude::*;

verus! {

/// A model's name as people write it.
pub open spec fn model_label(model: Seq<char>) -> Seq<char> {
    if model == "openai"@ {
        "OpenAI"@
    } else if model == "deepseek"@ {
        "DeepSeek"@
    } else if model == "qwen"@ {
        "Qwen"@
    } else if model == "kimi"@ {
        "Kimi"@
    } else {
        model
    }
}

/// A model's name as people write it.
pub fn display_model_name(model: &str) -> (r: String)
    ensures
        r@ == model_label(model@),
{
    if same(model, "openai") {
        "OpenAI".to_owned()
    } else if same(model, "deepseek") {
        "DeepSeek".to_owned()
    } else if same(model, "qwen") {
        "Qwen".to_owned()
    } else if same(model, "kimi") {
        "Kimi".to_owned()
    } else {
        model.to_owned()
    }
}

/// A directory as people write it: below the user's home it begins with a
/// tilde.
pub open spec fn workspace_label(workspace: Seq<char>, home: Option<Seq<char>>) -> Seq<char> {
    match home {
        None => workspace,
        Some(dir) => {
            let base = stripped_end(dir, '/');
            let below = base + "/"@;
            if stripped_end(workspace, '/') == base {
                "~"@
            } else if begins(workspace, below) {
                "~/"@ + workspace.skip(below.len() as int)
            } else {
                workspace
            }
        },
    }
}

/// A directory as people write it.
pub fn display_workspace(workspace: &str, home: Option<&str>) -> (r: String)
    ensures
        r@ == workspace_label(
            workspace@,
            match home {
                Some(dir) => Some(dir@),
                None => None,
            },
        ),
{
    match home {
        None => workspace.to_owned(),
        Some(dir) => {
            let base = strip_end(dir, '/');
            if same(strip_end(workspace, '/').as_str(), base.as_str()) {
                return "~".to_owned();
            }
            let mut below: String = base;
            below.append("/");
            match strip_prefix(workspace, below.as_str()) {
                Some(rest) => {
                    let mut out: String = "~/".to_owned();
                    out.append(rest.as_str());
                    out
                },
                None => workspace.to_owned(),
            }
        },
    }
}

/// The rows of the name in large letters.
pub open spec fn logo() -> Seq<Seq<char>> {
    seq![
        "█   █  ███  █   █  ███"@,
        "██  █ █   █  █ █  █   █"@,
        "█ █ █ █   █   █   █████"@,
        "█  ██ █   █   █   █   █"@,
        "█   █  ███    █   █   █"@,
    ]
}

/// What the welcome says: the version, the model and the directory.
pub open spec fn details(
    info: InfoView,
    version: Seq<char>,
    home: Option<Seq<char>>,
) -> Seq<Seq<SpanView>> {
    seq![
        seq![span("Noya"@, bold_colour(FG)), span(" v"@ + version, coloured(DIM))],
        seq![
            span(model_label(info.model), bold_colour(ACCENT_SOFT)),
            span(" · "@ + info.model_id, coloured(DIM)),
        ],
        seq![span(workspace_label(info.workspace, home), coloured(DIM))],
    ]
}

/// What the welcome asks for.
pub open spec fn invitation() -> LineView {
    line_of(
        seq![
            span("Welcome to Noya."@, bold_colour(ACCENT_SOFT)),
            span(" Type a request or /help."@, coloured(DIM)),
        ],
    )
}

/// A row of the name, with what stands beside it.
pub open spec fn logo_row(i: int, beside: Seq<Seq<SpanView>>) -> LineView {
    line_of(
        seq![span("  "@ + logo()[i] + "   "@, bold_colour(ACCENT))] + if i < beside.len() {
            beside[i]
        } else {
            Seq::empty()
        },
    )
}

/// The welcome: the name and the details side by side where there is room, and
/// one below the other otherwise.
pub open spec fn welcome(
    info: InfoView,
    width: usize,
    version: Seq<char>,
    home: Option<Seq<char>>,
) -> Seq<LineView> {
    let said = details(info, version, home);
    let blank = line_of(Seq::empty());
    let top = if width < WIDE_WELCOME_MIN_WIDTH {
        Seq::new(5, |i: int| line_of(seq![span("  "@ + logo()[i], bold_colour(ACCENT))])).push(
            blank,
        ) + said.map_values(|s: Seq<SpanView>| line_of(s))
    } else {
        Seq::new(5, |i: int| logo_row(i, said))
    };
    top.push(blank).push(invitation()).push(blank)
}

fn logo_text(i: usize) -> (r: &'static str)
    requires
        i < 5,
    ensures
        r@ == logo()[i as int],
{
    if i == 0 {
        "█   █  ███  █   █  ███"
    } else if i == 1 {
        "██  █ █   █  █ █  █   █"
    } else if i == 2 {
        "█ █ █ █   █   █   █████"
    } else if i == 3 {
        "█  ██ █   █   █   █   █"
    } else {
        "█   █  ███    █   █   █"
    }
}

fn detail(i: usize, info: &AppInfo, version: &str, home: Option<&str>) -> (r: Vec<Span>)
    requires
        i < 3,
    ensures
        span_views(r@) == details(
            info@,
            version@,
            match home {
                Some(dir) => Some(dir@),
                None => None,
            },
        )[i as int],
{
    let mut spans: Vec<Span> = Vec::new();
    if i == 0 {
        spans.push(Span::of("Noya", Style::bold(FG)));
        let mut text: String = " v".to_owned();
        text.append(version);
        spans.push(Span::new(text, Style::colour(DIM)));
    } else if i == 1 {
        spans.push(
            Span::new(display_model_name(info.model.as_str()), Style::bold(ACCENT_SOFT)),
        );
        let mut text: String = " · ".to_owned();
        text.append(info.model_id.as_str());
        spans.push(Span::new(text, Style::colour(DIM)));
    } else {
        spans.push(
            Span::new(display_workspace(info.workspace.as_str(), home), Style::colour(DIM)),
        );
    }
    assert(span_views(spans@) =~= details(
        info@,
        version@,
        match home {
            Some(dir) => Some(dir@),
            None => None,
        },
    )[i as int]);
    spans
}

/// The welcome.
pub fn welcome_lines(info: &AppInfo, width: usize, version: &str, home: Option<&str>) -> (r: Vec<
    Line,
>)
    ensures
        line_views(r@) == welcome(
            info@,
            width,
            version@,
            match home {
                Some(dir) => Some(dir@),
                None => None,
            },
        ),
{
    let ghost dir = match home {
        Some(dir) => Some(dir@),
        None => None,
    };
    let ghost said = details(info@, version@, dir);
    let ghost blank = line_of(Seq::empty());
    let ghost narrow = Seq::new(
        5,
        |i: int| line_of(seq![span("  "@ + logo()[i], bold_colour(ACCENT))]),
    ).push(blank) + said.map_values(|s: Seq<SpanView>| line_of(s));
    let ghost wide = Seq::new(5, |i: int| logo_row(i, said));
    let mut lines: Vec<Line> = Vec::new();
    let mut i: usize = 0;
    if width < WIDE_WELCOME_MIN_WIDTH {
        assert(line_views(lines@) =~= narrow.take(0));
        while i < 5
            invariant
                i <= 5,
                narrow == Seq::new(
                    5,
                    |i: int| line_of(seq![span("  "@ + logo()[i], bold_colour(ACCENT))]),
                ).push(blank) + said.map_values(|s: Seq<SpanView>| line_of(s)),
                said.len() == 3,
                line_views(lines@) == narrow.take(i as int),
            decreases 5 - i,
        {
            let mut text: String = "  ".to_owned();
            text.append(logo_text(i));
            push_line(&mut lines, Line::of(Span::new(text, Style::bold(ACCENT))));
            i += 1;
            assert(narrow.take(i as int) =~= narrow.take(i - 1).push(narrow[i - 1]));
        }
        push_line(&mut lines, Line::blank());
        assert(narrow.take(6) =~= narrow.take(5).push(narrow[5]));
        let mut k: usize = 0;
        while k < 3
            invariant
                k <= 3,
                dir == (match home {
                    Some(dir) => Some(dir@),
                    None => None,
                }),
                said == details(info@, version@, dir),
                narrow == Seq::new(
                    5,
                    |i: int| line_of(seq![span("  "@ + logo()[i], bold_colour(ACCENT))]),
                ).push(blank) + said.map_values(|s: Seq<SpanView>| line_of(s)),
                line_views(lines@) == narrow.take(6 + k),
            decreases 3 - k,
        {
            push_line(&mut lines, Line::new(detail(k, info, version, home)));
            k += 1;
            assert(narrow[6 + k - 1] == line_of(said[k - 1]));
            assert(narrow.take(6 + k) =~= narrow.take(6 + k - 1).push(narrow[6 + k - 1]));
        }
        assert(narrow.take(9) =~= narrow);
    } else {
        assert(line_views(lines@) =~= wide.take(0));
        while i < 5
            invariant
                i <= 5,
                dir == (match home {
                    Some(dir) => Some(dir@),
                    None => None,
                }),
                said == details(info@, version@, dir),
                wide == Seq::new(5, |i: int| logo_row(i, said)),
                line_views(lines@) == wide.take(i as int),
            decreases 5 - i,
        {
            let mut text: String = "  ".to_owned();
            text.append(logo_text(i));
            text.append("   ");
            let mut spans: Vec<Span> = Vec::new();
            push_span(&mut spans, Span::new(text, Style::bold(ACCENT)));
            let ghost first = span_views(spans@);
            assert(first =~= seq![span("  "@ + logo()[i as int] + "   "@, bold_colour(ACCENT))]);
            if i < 3 {
                let mut beside = detail(i, info, version, home);
                assert(span_views(spans@ + beside@) =~= first + span_views(beside@));
                spans.append(&mut beside);
            } else {
                assert(first + Seq::<SpanView>::empty() =~= first);
            }
            let line = Line::new(spans);
            assert(line@ =~= wide[i as int]);
            push_line(&mut lines, line);
            i += 1;
            assert(wide.take(i as int) =~= wide.take(i - 1).push(wide[i - 1]));
        }
        assert(wide.take(5) =~= wide);
    }
    push_line(&mut lines, Line::blank());
    let mut spans: Vec<Span> = Vec::new();
    spans.push(Span::of("Welcome to Noya.", Style::bold(ACCENT_SOFT)));
    spans.push(Span::of(" Type a request or /help.", Style::colour(DIM)));
    let line = Line::new(spans);
    assert(line@.spans =~= invitation().spans);
    push_line(&mut lines, line);
    push_line(&mut lines, Line::blank());
    lines
}

/// How long something took: seconds, or minutes and seconds.
pub open spec fn elapsed_text(seconds: u64) -> Seq<char> {
    if seconds < 60 {
        decimal(seconds as nat) + "s"@
    } else {
        decimal((seconds / 60) as nat) + "m "@ + two_digits((seconds % 60) as nat) + "s"@
    }
}

/// A number with at least two digits.
pub open spec fn two_digits(n: nat) -> Seq<char> {
    if n < 10 {
        "0"@ + decimal(n)
    } else {
        decimal(n)
    }
}

/// How long something took.
pub fn format_elapsed(seconds: u64) -> (r: String)
    ensures
        r@ == elapsed_text(seconds),
{
    if seconds < 60 {
        let mut out: String = decimal_of(seconds);
        out.append("s");
        return out;
    }
    let mut out: String = decimal_of(seconds / 60);
    out.append("m ");
    let rest: u64 = seconds % 60;
    if rest < 10 {
        out.append("0");
    }
    let ghost so_far = out@;
    out.append(decimal_of(rest).as_str());
    out.append("s");
    assert(out@ =~= elapsed_text(seconds));
    out
}

/// The pictures of the spinner, one after the other.
pub open spec fn spinner_frames() -> Seq<Seq<char>> {
    seq![
        "⠋"@, "⠙"@, "⠹"@, "⠸"@, "⠼"@, "⠴"@, "⠦"@, "⠧"@, "⠇"@, "⠏"@,
    ]
}

/// A picture of the spinner.
pub fn spinner(frame: usize) -> (r: &'static str)
    ensures
        r@ == spinner_frames()[(frame % 10) as int],
{
    let k: usize = frame % 10;
    if k == 0 {
        "⠋"
    } else if k == 1 {
        "⠙"
    } else if k == 2 {
        "⠹"
    } else if k == 3 {
        "⠸"
    } else if k == 4 {
        "⠼"
    } else if k == 5 {
        "⠴"
    } else if k == 6 {
        "⠦"
    } else if k == 7 {
        "⠧"
    } else if k == 8 {
        "⠇"
    } else {
        "⠏"
    }
}

/// The name of what the agent is doing, and its colour.
pub open spec fn state_look(s: AgentState) -> (Seq<char>, Color) {
    match s {
        AgentState::Idle => ("Ready"@, SUCCESS),
        AgentState::Thinking => ("Thinking"@, INFO),
        AgentState::Generating => ("Generating"@, ACCENT_SOFT),
        AgentState::RunningTool => ("Running tool"@, WARNING),
        AgentState::WaitingApproval => ("Approval required"@, WARNING),
        AgentState::Error => ("Error"@, ERROR),
    }
}

/// What the status says of the agent; `elapsed` is how long the turn has taken
/// so far.
pub open spec fn state_text(v: AppView, frame: usize, elapsed: Option<u64>) -> Seq<char> {
    let label = if crate::tui::app::at_work(v.state) {
        spinner_frames()[(frame % 10) as int] + " "@ + state_look(v.state).0
    } else {
        state_look(v.state).0
    };
    "· "@ + label + match elapsed {
        Some(seconds) => " ("@ + elapsed_text(seconds) + " · ↓ "@ + decimal(
            v.output_tokens as nat,
        ) + " tokens)"@,
        None => Seq::empty(),
    }
}

/// The status.
pub open spec fn status_spans(v: AppView, frame: usize, elapsed: Option<u64>) -> Seq<SpanView> {
    let first = seq![span(state_text(v, frame, elapsed), bold_colour(state_look(v.state).1))];
    let second = match v.status {
        Some(text) => first.push(span("  "@ + text, coloured(DIM))),
        None => first,
    };
    let third = if v.notifications > 0 {
        second.push(
            span(
                "  · "@ + decimal(v.notifications as nat) + " background notification(s)"@,
                coloured(WARNING),
            ),
        )
    } else {
        second
    };
    if crate::tui::app::at_work(v.state) {
        third.push(span("  Esc cancel"@, coloured(DIM)))
    } else {
        third
    }
}

/// The status; `frame` counts the pictures of the spinner, and `elapsed` is how
/// many seconds the turn has taken so far.
pub fn status_line(app: &App, frame: usize, elapsed: Option<u64>) -> (r: Line)
    ensures
        r@ == line_of(status_spans(app@, frame, elapsed)),
{
    let ghost v = app@;
    let (label, colour) = match app.agent_state {
        AgentState::Idle => ("Ready", SUCCESS),
        AgentState::Thinking => ("Thinking", INFO),
        AgentState::Generating => ("Generating", ACCENT_SOFT),
        AgentState::RunningTool => ("Running tool", WARNING),
        AgentState::WaitingApproval => ("Approval required", WARNING),
        AgentState::Error => ("Error", ERROR),
    };
    let busy = app.agent_state.is_at_work();
    let mut text: String = "· ".to_owned();
    if busy {
        text.append(spinner(frame));
        text.append(" ");
    }
    text.append(label);
    match elapsed {
        Some(seconds) => {
            text.append(" (");
            text.append(format_elapsed(seconds).as_str());
            text.append(" · ↓ ");
            text.append(decimal_of(app.turn_output_tokens).as_str());
            text.append(" tokens)");
        },
        None => {},
    }
    assert(text@ =~= state_text(v, frame, elapsed));
    let mut spans: Vec<Span> = Vec::new();
    push_span(&mut spans, Span::new(text, Style::bold(colour)));
    assert(span_views(spans@) =~= seq![
        span(state_text(v, frame, elapsed), bold_colour(state_look(v.state).1)),
    ]);
    match &app.status_message {
        Some(status) => {
            let mut remark: String = "  ".to_owned();
            remark.append(status.as_str());
            push_span(&mut spans, Span::new(remark, Style::colour(DIM)));
        },
        None => {},
    }
    if app.background_notifications > 0 {
        let mut told: String = "  · ".to_owned();
        told.append(decimal_of(app.background_notifications as u64).as_str());
        told.append(" background notification(s)");
        push_span(&mut spans, Span::new(told, Style::colour(WARNING)));
    }
    if busy {
        push_span(&mut spans, Span::of("  Esc cancel", Style::colour(DIM)));
    }
    Line::new(spans)
}

/// Where the cursor stands in the input as it is shown: a secret shows as many
/// dots as it has characters.
pub open spec fn shown_cursor(
    input: Seq<char>,
    shown: Seq<char>,
    cursor: usize,
    secret: bool,
) -> nat {
    if secret {
        let k = caret(input, capped(cursor, byte_len(input)));
        if k < shown.len() {
            byte_len(shown.take(k))
        } else {
            byte_len(shown)
        }
    } else {
        cursor as nat
    }
}

/// A place, no further than the end.
pub open spec fn capped(cursor: usize, end: nat) -> int {
    if cursor < end {
        cursor as int
    } else {
        end as int
    }
}

/// Where the cursor stands in the input as it is shown.
pub fn rendered_cursor_position(
    input: &str,
    rendered_input: &str,
    cursor_byte: usize,
    secret: bool,
) -> (r: usize)
    requires
        secret ==> boundary(input@, capped(cursor_byte, byte_len(input@))),
    ensures
        r == shown_cursor(input@, rendered_input@, cursor_byte, secret),
{
    if !secret {
        return cursor_byte;
    }
    let total: usize = byte_count(input);
    let place: usize = if cursor_byte < total {
        cursor_byte
    } else {
        total
    };
    let chars = chars_of(input);
    let k: usize = caret_of(input, &chars, place);
    let shown = chars_of(rendered_input);
    if k < shown.len() {
        let before = string_of(&shown, 0, k);
        assert(shown@.subrange(0, k as int) =~= shown@.take(k as int));
        byte_count(before.as_str())
    } else {
        byte_count(rendered_input)
    }
}

/// How many columns characters take one by one.
pub open spec fn sum_columns(text: Seq<char>) -> usize
    decreases text.len(),
{
    if text.len() == 0 {
        0
    } else {
        more(sum_columns(text.drop_last()), columns(text.last()))
    }
}

/// The first character before which the text takes at least so many columns;
/// the first of all where there is none.
pub open spec fn first_at(text: Seq<char>, target: usize, k: int) -> int
    decreases text.len() - k,
{
    if k < 0 || k >= text.len() {
        0
    } else if sum_columns(text.take(k)) >= target {
        k
    } else {
        first_at(text, target, k + 1)
    }
}

/// As many characters as fit in a number of columns.
pub open spec fn fitting(text: Seq<char>, width: usize, room: usize) -> Seq<char>
    decreases text.len(),
{
    if text.len() == 0 || more(width, columns(text[0])) > room {
        Seq::empty()
    } else {
        seq![text[0]] + fitting(text.drop_first(), more(width, columns(text[0])), room)
    }
}

/// The first character of the input that is shown.
pub open spec fn first_shown(input: Seq<char>, k: int, room: usize) -> int {
    first_at(input, less(text_width(input.take(k)), less(room, 1)), 0)
}

/// The part of the input that is shown, and the column of the cursor in it.
pub open spec fn shown_part(input: Seq<char>, cursor: usize, room: usize) -> (Seq<char>, usize) {
    let k = caret(input, capped(cursor, byte_len(input)));
    if room == 0 {
        (Seq::empty(), 0)
    } else if text_width(input) <= room {
        (input, text_width(input.take(k)))
    } else {
        let start = first_shown(input, k, room);
        (fitting(input.skip(start), 0, room), text_width(input.subrange(start, k)))
    }
}

/// The cursor lies in the part of the input that is shown.
pub open spec fn cursor_is_shown(input: Seq<char>, cursor: usize, room: usize) -> bool {
    let k = caret(input, capped(cursor, byte_len(input)));
    room == 0 || text_width(input) <= room || first_shown(input, k, room) <= k
}

/// The first character of the input that is shown.
fn find_first_shown(chars: &Vec<char>, k: usize, room: usize) -> (r: usize)
    requires
        k <= chars@.len(),
    ensures
        r == first_shown(chars@, k as int, room),
        r <= chars@.len(),
{
    let before = string_of(chars, 0, k);
    assert(chars@.subrange(0, k as int) =~= chars@.take(k as int));
    let target: usize = width_of(before.as_str()).saturating_sub(room.saturating_sub(1));
    let mut column: usize = 0;
    let mut i: usize = 0;
    assert(chars@.take(0) =~= Seq::<char>::empty());
    while i < chars.len()
        invariant
            i <= chars@.len(),
            k <= chars@.len(),
            column == sum_columns(chars@.take(i as int)),
            target == less(text_width(chars@.take(k as int)), less(room, 1)),
            first_at(chars@, target, 0) == first_at(chars@, target, i as int),
        decreases chars.len() - i,
    {
        if column >= target {
            return i;
        }
        column = column.saturating_add(columns_of(chars[i]));
        proof {
            let now = chars@.take(i + 1);
            assert(now.drop_last() =~= chars@.take(i as int));
            assert(now.last() == chars@[i as int]);
        }
        i += 1;
    }
    0
}

/// As many characters from a place on as fit in a number of columns.
fn take_fitting(chars: &Vec<char>, from: usize, room: usize) -> (r: String)
    requires
        from <= chars@.len(),
    ensures
        r@ == fitting(chars@.skip(from as int), 0, room),
{
    let ghost rest = chars@.skip(from as int);
    let mut width: usize = 0;
    let mut i: usize = from;
    assert(rest.skip(0) =~= rest);
    assert(Seq::<char>::empty() + fitting(rest, 0, room) =~= fitting(rest, 0, room));
    assert(chars@.subrange(from as int, from as int) =~= Seq::<char>::empty());
    while i < chars.len() && width.saturating_add(columns_of(chars[i])) <= room
        invariant
            from <= i <= chars@.len(),
            rest == chars@.skip(from as int),
            fitting(rest, 0, room) == chars@.subrange(from as int, i as int) + fitting(
                chars@.skip(i as int),
                width,
                room,
            ),
        decreases chars.len() - i,
    {
        proof {
            let here = chars@.skip(i as int);
            assert(here[0] == chars@[i as int]);
            assert(here.drop_first() =~= chars@.skip(i + 1));
            let next = more(width, columns(here[0]));
            assert(chars@.subrange(from as int, i as int) + (seq![here[0]] + fitting(
                here.drop_first(),
                next,
                room,
            )) =~= chars@.subrange(from as int, i + 1) + fitting(chars@.skip(i + 1), next, room));
        }
        width = width.saturating_add(columns_of(chars[i]));
        i += 1;
    }
    assert(fitting(chars@.skip(i as int), width, room) =~= Seq::<char>::empty()) by {
        if i < chars@.len() {
            assert(chars@.skip(i as int)[0] == chars@[i as int]);
        }
    }
    assert(chars@.subrange(from as int, i as int) + Seq::<char>::empty() =~= chars@.subrange(
        from as int,
        i as int,
    ));
    string_of(chars, from, i)
}

/// The part of the input that is shown, and the column of the cursor in it; the
/// cursor lies in that part.
pub fn visible_input(input: &str, cursor_byte: usize, available: usize) -> (r: (String, usize))
    requires
        boundary(input@, capped(cursor_byte, byte_len(input@))),
        cursor_is_shown(input@, cursor_byte, available),
    ensures
        (r.0@, r.1) == shown_part(input@, cursor_byte, available),
{
    if available == 0 {
        let out = String::new();
        assert(out@ =~= Seq::<char>::empty());
        return (out, 0);
    }
    let chars = chars_of(input);
    let total: usize = byte_count(input);
    let place: usize = if cursor_byte < total {
        cursor_byte
    } else {
        total
    };
    let k: usize = caret_of(input, &chars, place);
    if width_of(input) <= available {
        let before = string_of(&chars, 0, k);
        assert(chars@.subrange(0, k as int) =~= chars@.take(k as int));
        return (input.to_owned(), width_of(before.as_str()));
    }
    let start: usize = find_first_shown(&chars, k, available);
    let seen = take_fitting(&chars, start, available);
    let before = string_of(&chars, start, k);
    (seen, width_of(before.as_str()))
}

/// The part of the input that is shown, and the column of the cursor in it;
/// none where the cursor does not lie in that part.
pub fn input_part(input: &str, cursor_byte: usize, available: usize) -> (r: Option<(String, usize)>)
    requires
        boundary(input@, capped(cursor_byte, byte_len(input@))),
    ensures
        match r {
            Some(part) => cursor_is_shown(input@, cursor_byte, available) && (part.0@, part.1)
                == shown_part(input@, cursor_byte, available),
            None => !cursor_is_shown(input@, cursor_byte, available),
        },
{
    if available > 0 && width_of(input) > available {
        let chars = chars_of(input);
        let total: usize = byte_count(input);
        let place: usize = if cursor_byte < total {
            cursor_byte
        } else {
            total
        };
        let k: usize = caret_of(input, &chars, place);
        if find_first_shown(&chars, k, available) > k {
            return None;
        }
    }
    Some(visible_input(input, cursor_byte, available))
}

/// The input as it is shown: dots in place of a secret.
pub open spec fn masked(v: AppView, secret: bool) -> Seq<char> {
    if secret {
        repeated("•"@, v.input.len())
    } else {
        v.input
    }
}

/// The input as it is shown.
pub fn masked_input(app: &App) -> (r: String)
    ensures
        r@ == masked(
            app@,
            app@.mode == AppMode::ConfiguringModel && (app@.setup matches Some(s) && s.stage
                == SetupStage::ApiKey),
        ),
{
    if app.model_setup_is_secret() {
        repeat("•", app.input.as_str().unicode_len())
    } else {
        app.input.clone()
    }
}

/// What stands behind the prompt: what the user types, or what they are asked
/// for.
pub open spec fn input_span(v: AppView, seen: Seq<char>) -> SpanView {
    if v.mode == AppMode::SelectingModel {
        span("Select a model with ↑/↓ and Enter."@, coloured(DIM))
    } else if seen.len() > 0 {
        span(seen, coloured(FG))
    } else if v.mode == AppMode::ConfiguringModel && v.setup is Some {
        span(setup_prompt(v.setup->0), coloured(DIM))
    } else {
        span("Type a request. /help for commands."@, coloured(DIM))
    }
}

/// The line of the input; `seen` is the part of it that is shown.
pub fn input_line(app: &App, seen: String) -> (r: Line)
    ensures
        r@ == line_of(seq![span(INPUT_PROMPT@, bold_colour(ACCENT_SOFT)), input_span(app@, seen@)]),
{
    let text = if app.mode == AppMode::SelectingModel {
        Span::of("Select a model with ↑/↓ and Enter.", Style::colour(DIM))
    } else if !seen.as_str().is_empty() {
        Span::new(seen, input_text_style())
    } else {
        match app.model_setup_prompt() {
            Some(prompt) => Span::new(prompt, Style::colour(DIM)),
            None => Span::of("Type a request. /help for commands.", Style::colour(DIM)),
        }
    };
    let mut spans: Vec<Span> = Vec::new();
    spans.push(Span::of(INPUT_PROMPT, Style::bold(ACCENT_SOFT)));
    spans.push(text);
    assert(span_views(spans@) =~= seq![
        span(INPUT_PROMPT@, bold_colour(ACCENT_SOFT)),
        input_span(app@, seen@),
    ]);
    Line::new(spans)
}

/// The lines of the message that is coming in that are shown: the last ones
/// that have not left the interface, without the line behind the message.
pub open spec fn live_lines(
    lines: Seq<LineView>,
    committed: usize,
    height: usize,
) -> Seq<LineView> {
    let end = if lines.len() == 0 {
        0
    } else {
        lines.len() - 1
    };
    let start = if committed < end {
        committed as int
    } else {
        end
    };
    let first = if end - start > height {
        end - height
    } else {
        start
    };
    lines.subrange(first, end)
}

/// The lines of the message that is coming in that are shown in an area.
pub fn stream_lines(app: &App, view: Option<StreamView>, width: u16, height: u16) -> (r: Vec<Line>)
    ensures
        line_views(r@) == (match streaming_slot(app@) {
            None => Seq::empty(),
            Some(k) => {
                let v = stream_frame(view, width);
                live_lines(
                    shown_message(app@.messages[k], v.render_width),
                    v.committed_lines,
                    height as usize,
                )
            },
        }),
{
    let mut out: Vec<Line> = Vec::new();
    assert(line_views(out@) =~= Seq::<LineView>::empty());
    let message = match app.current_streaming_message() {
        Some(message) => message,
        None => {
            return out;
        },
    };
    let v = match view {
        Some(v) => v,
        None => StreamView {
            committed_lines: 0,
            render_width: if width == 0 {
                1
            } else {
                width as usize
            },
        },
    };
    let lines = message_lines(message, v.render_width);
    let ghost all = line_views(lines@);
    assert(all.len() == lines@.len());
    let end: usize = lines.len().saturating_sub(1);
    let start: usize = if v.committed_lines < end {
        v.committed_lines
    } else {
        end
    };
    let first: usize = if end - start > height as usize {
        end - height as usize
    } else {
        start
    };
    let mut i: usize = first;
    assert(line_views(out@) =~= all.subrange(first as int, first as int));
    while i < end
        invariant
            first <= i <= end <= lines@.len(),
            all == line_views(lines@),
            line_views(out@) == all.subrange(first as int, i as int),
        decreases end - i,
    {
        let line = lines[i].clone();
        assert(line@ == all[i as int]);
        push_line(&mut out, line);
        i += 1;
        assert(all.subrange(first as int, i as int) =~= all.subrange(first as int, i - 1).push(
            all[i - 1],
        ));
    }
    out
}

/// How a message that is coming in is broken where nothing of it has left the
/// interface yet.
pub open spec fn stream_frame(view: Option<StreamView>, width: u16) -> StreamView {
    match view {
        Some(v) => v,
        None => StreamView {
            committed_lines: 0,
            render_width: if width == 0 {
                1
            } else {
                width as usize
            },
        },
    }
}

/// How many cells a symbol takes; one in any case.
pub open spec fn cells(symbol: Seq<char>) -> int {
    if text_width(symbol) == 0 {
        1
    } else {
        text_width(symbol) as int
    }
}

/// A row of cells with nothing in those between two cells.
pub open spec fn cleared(row: Seq<Seq<char>>, x: int, next: int) -> Seq<Seq<char>> {
    Seq::new(
        row.len(),
        |i: int|
            if x < i < next {
                Seq::empty()
            } else {
                row[i]
            },
    )
}

/// A row of cells without what stands beside the wide symbols from a cell on.
pub open spec fn without_echoes(row: Seq<Seq<char>>, x: int) -> Seq<Seq<char>>
    decreases
        (if x < row.len() {
            row.len() - x
        } else {
            0
        }),
{
    if x < 0 || x >= row.len() {
        row
    } else {
        let next = x + cells(row[x]);
        without_echoes(cleared(row, x, next), next)
    }
}

/// Clears the cells beside the wide symbols of a row: each symbol that is wider
/// than a cell is followed by cells that hold nothing.
pub fn suppress_wide_character_continuations(row: &mut Vec<String>)
    ensures
        texts(final(row)@) == without_echoes(texts(old(row)@), 0),
        final(row)@.len() == old(row)@.len(),
{
    let ghost all = texts(row@);
    let total: usize = row.len();
    let mut x: usize = 0;
    while x < total
        invariant
            x <= total,
            total == row@.len(),
            total == old(row)@.len(),
            without_echoes(texts(row@), x as int) == without_echoes(all, 0),
        decreases total - x,
    {
        let ghost before = texts(row@);
        let mut width: usize = width_of(row[x].as_str());
        if width == 0 {
            width = 1;
        }
        assert(width == cells(before[x as int]));
        let next: usize = if width >= total - x {
            total
        } else {
            x + width
        };
        let mut k: usize = x + 1;
        assert(before =~= cleared(before, x as int, k as int));
        while k < next
            invariant
                x < k <= next <= total,
                total == row@.len(),
                before.len() == total,
                texts(row@) == cleared(before, x as int, k as int),
            decreases next - k,
        {
            let ghost now = texts(row@);
            row.set(k, String::new());
            assert(row@[k as int]@ =~= Seq::<char>::empty());
            assert(texts(row@) =~= now.update(k as int, Seq::<char>::empty()));
            k += 1;
            assert(texts(row@) =~= cleared(before, x as int, k as int));
        }
        proof {
            let step = x + cells(before[x as int]);
            assert(cleared(before, x as int, next as int) =~= cleared(before, x as int, step));
            if step >= total {
                assert(without_echoes(texts(row@), step) == texts(row@));
                assert(without_echoes(texts(row@), next as int) == texts(row@));
            }
        }
        x = next;
    }
}

} // verus!
