use noya::tui::app::{App, AppInfo, Message, MessageKind, ModelChoice};
use noya::tui::markdown::{read_event, render, render_events, Event, Tag, TagEnd};
use noya::tui::panel::{
    display_model_name, display_workspace, format_elapsed, input_line, input_part, masked_input,
    rendered_cursor_position, spinner, status_line, stream_lines,
    suppress_wide_character_continuations, visible_input, welcome_lines,
};
use noya::tui::style::{
    Alignment, Color, Line, Style, ACCENT, ACCENT_SOFT, DIM, ERROR, FG, INFO, MUTED,
};
use noya::tui::transcript::{transcript_line_range, UiRuntime};
use noya::tui::ui::{
    command_menu_lines, input_text_style, message_lines, message_style, model_menu_lines,
    tui_areas, Area, StreamView, COMMAND_MENU_HEIGHT, TOOL_MESSAGE_MAX_LINES, VIEWPORT_HEIGHT,
};
use ratatui::layout::Rect;
use ratatui::widgets::{Block, Borders};
use std::time::Duration;
use unicode_width::UnicodeWidthStr;

fn text(lines: &[Line]) -> String {
    lines
        .iter()
        .map(Line::to_text)
        .collect::<Vec<_>>()
        .join("\n")
}

fn app() -> App {
    App::new(AppInfo {
        workspace: "/repo".to_string(),
        model: "qwen".to_string(),
        model_id: "qwen3-coder-plus".to_string(),
    })
}

#[test]
fn renders_common_markdown_blocks() {
    let markdown =
        "# 标题\n\n- first\n- **重点** and `code`\n\n> quote\n\n[docs](https://example.com)";
    let lines = render(markdown, 60, Style::plain());
    let rendered = text(&lines);

    assert!(rendered.contains("标题"));
    assert!(rendered.contains("• first"));
    assert!(rendered.contains("• 重点 and code"));
    assert!(rendered.contains("│ quote"));
    assert!(rendered.contains("docs (https://example.com)"));
    assert!(lines
        .iter()
        .flat_map(|line| &line.spans)
        .any(|span| span.content == "重点" && span.style.bold));
    assert!(lines
        .iter()
        .flat_map(|line| &line.spans)
        .any(|span| span.content == "code" && span.style.fg == Some(Color::LightMagenta)));
}

#[test]
fn preserves_fenced_code_whitespace() {
    let lines = render(
        "```rust\nfn main() {\n    ok();\n}\n```",
        40,
        Style::plain(),
    );
    let rendered = text(&lines);

    assert!(rendered.contains("  rust"));
    assert!(rendered.contains("      ok();"));
}

#[test]
fn wraps_chinese_by_display_width_without_inserting_spaces() {
    let lines = render("中文输出非常自然", 8, Style::plain());

    assert_eq!(text(&lines).replace('\n', ""), "中文输出非常自然");
    assert!(lines
        .iter()
        .all(|line| UnicodeWidthStr::width(line.to_text().as_str()) <= 8));
}

#[test]
fn accepts_incomplete_streaming_markdown() {
    let lines = render(
        "回答中：**加粗内容\n\n```rust\nfn main()",
        30,
        Style::plain(),
    );
    let rendered = text(&lines);

    assert!(rendered.contains("回答中："));
    assert!(rendered.contains("fn main()"));
}

#[test]
fn markdown_is_laid_out_line_by_line() {
    let lines = render(
        "3. a\n4. b\n\n---\n\n- [x] done\n- [ ] open\n\n| h | i |\n| - | - |\n| 1 | 2 |\n\nend[^n] ![pic](u)\n\n[^n]: note",
        12,
        Style::plain(),
    );
    let rendered = text(&lines);
    assert!(rendered.starts_with("3. a\n4. b\n\n────────────\n\n• [x] done\n• [ ] open\n\n"));
    assert!(rendered.contains("h │ i │"));
    assert!(rendered.contains("│ 1 │ 2 │"));
    assert!(rendered.contains("[image: pic]"));
    assert!(rendered.contains("[^n]"));
}

#[test]
fn nothing_makes_one_empty_line() {
    let lines = render("", 10, Style::plain());
    assert_eq!(lines.len(), 1);
    assert_eq!(lines[0].to_text(), "");
}

#[test]
fn pieces_of_markdown_are_read() {
    assert_eq!(read_event("\"SoftBreak\""), Event::SoftBreak);
    assert_eq!(read_event("\"HardBreak\""), Event::HardBreak);
    assert_eq!(read_event("\"Rule\""), Event::Rule);
    assert_eq!(read_event("{\"Text\":\"a\"}"), Event::Text("a".to_string()));
    assert_eq!(
        read_event("{\"TaskListMarker\":true}"),
        Event::TaskListMarker(true)
    );
    assert_eq!(
        read_event("{\"TaskListMarker\":false}"),
        Event::TaskListMarker(false)
    );
    assert_eq!(
        read_event("{\"Start\":{\"List\":3}}"),
        Event::Start(Tag::List(Some(3)))
    );
    assert_eq!(
        read_event("{\"Start\":{\"List\":null}}"),
        Event::Start(Tag::List(None))
    );
    assert_eq!(
        read_event("{\"Start\":{\"CodeBlock\":\"Indented\"}}"),
        Event::Start(Tag::CodeBlock(String::new()))
    );
    assert_eq!(
        read_event("{\"End\":{\"Heading\":\"H2\"}}"),
        Event::End(TagEnd::Heading)
    );
    assert_eq!(
        read_event("{\"End\":\"TableHead\"}"),
        Event::End(TagEnd::TableHead)
    );
    assert_eq!(read_event("nothing"), Event::TaskListMarker(false));
}

#[test]
fn pieces_are_laid_out_in_a_width() {
    let events = vec![
        Event::Text("one two  three".to_string()),
        Event::HardBreak,
        Event::Text("abcdefgh".to_string()),
        Event::End(TagEnd::Paragraph),
    ];
    let lines = render_events(events, 7, Style::plain());
    assert_eq!(text(&lines), "one two\nthree\nabcdefg\nh");
    let quote = vec![
        Event::Start(Tag::BlockQuote),
        Event::Start(Tag::Heading(1)),
        Event::Text("t".to_string()),
        Event::End(TagEnd::Heading),
        Event::End(TagEnd::BlockQuote),
        Event::Rule,
    ];
    let lines = render_events(quote, 5, Style::plain());
    assert_eq!(text(&lines), "│ t\n\n─────");
    assert_eq!(lines[0].spans[0].style.fg, Some(Color::DarkGray));
    assert_eq!(lines[0].spans[1].style.fg, Some(Color::LightGreen));
}

#[test]
fn conversation_messages_align_to_their_speaker_side() {
    let agent = message_lines(&Message::new(MessageKind::Agent, "model output"), 40);
    let user = message_lines(&Message::new(MessageKind::User, "user input"), 40);

    assert!(agent[..agent.len() - 1]
        .iter()
        .all(|line| line.alignment == Some(Alignment::Left)));
    assert!(user[..user.len() - 1]
        .iter()
        .all(|line| line.alignment == Some(Alignment::Right)));
}

#[test]
fn message_lines_include_role_and_wrapped_content() {
    let message = Message::new(MessageKind::Agent, "你好，terminal world");

    let lines = message_lines(&message, 12);
    let rendered = text(&lines);

    assert!(rendered.contains("Noya"));
    assert!(rendered.contains("你好"));
    assert!(lines.len() >= 3);
}

#[test]
fn chinese_transcript_buffer_does_not_print_wide_character_continuation_cells() {
    let message = Message::new(MessageKind::Agent, "中文输出非常不自然");
    let lines = message_lines(&message, 40);
    let mut buffer = ratatui::buffer::Buffer::empty(Rect::new(0, 0, 40, lines.len() as u16));
    for (y, line) in lines.iter().enumerate() {
        buffer.set_string(0, y as u16, line.to_text(), ratatui::style::Style::default());
    }
    let mut row = (0..40u16)
        .map(|x| buffer[(x, 1)].symbol().to_string())
        .collect::<Vec<_>>();

    suppress_wide_character_continuations(&mut row);

    assert_eq!(row[2], "中");
    assert_eq!(row[3], "");
    assert_eq!(row[4], "文");
    assert_eq!(row[5], "");
    assert_eq!(row.len(), 40);
    let mut narrow = vec!["a".to_string(), " ".to_string(), "中".to_string()];
    suppress_wide_character_continuations(&mut narrow);
    assert_eq!(narrow, vec!["a", " ", "中"]);
}

#[test]
fn agent_transcript_renders_markdown_instead_of_showing_markers() {
    let message = Message::new(MessageKind::Agent, "## Result\n\nUse **cargo test** now.");

    let lines = message_lines(&message, 60);
    let rendered = text(&lines);

    assert!(!rendered.contains("##"));
    assert!(!rendered.contains("**"));
    assert!(rendered.contains("Result"));
    assert!(lines
        .iter()
        .flat_map(|line| &line.spans)
        .any(|span| span.content == "cargo test" && span.style.bold));
}

#[test]
fn tool_messages_use_an_accented_label_and_muted_content() {
    let (label, label_style, content_style) = message_style(MessageKind::Tool);

    assert_eq!(label, "└─ Tool");
    assert_eq!(label_style.fg, Some(ACCENT));
    assert!(label_style.bold);
    assert_eq!(content_style.fg, Some(MUTED));
}

#[test]
fn typed_input_uses_the_theme_foreground() {
    assert_eq!(input_text_style().fg, Some(FG));
    assert_eq!(FG.rgb(), Some((244, 244, 245)));
    assert_eq!(Color::Cyan.rgb(), None);
}

#[test]
fn tool_messages_are_limited_to_three_visible_lines() {
    let message = Message::new(
        MessageKind::Tool,
        "run_command this is a very long tool invocation that should be truncated",
    );

    let lines = message_lines(&message, 24);
    let visible = &lines[..lines.len() - 1];
    let rendered = text(visible);

    assert_eq!(visible.len(), TOOL_MESSAGE_MAX_LINES);
    assert!(rendered.ends_with("…"));
}

#[test]
fn plain_messages_are_indented_and_wrapped() {
    let message = Message::new(MessageKind::System, "one two three\n\nfour");
    let lines = message_lines(&message, 10);
    assert_eq!(text(&lines), "· System\n  one two\n  three\n  \n  four\n");
    let message = Message::new(MessageKind::User, "one two three");
    let lines = message_lines(&message, 10);
    assert_eq!(text(&lines), "▸ You  \none two  \nthree  \n");
    let (label, style, _) = message_style(MessageKind::Error);
    assert_eq!((label, style.fg), ("✕ Error", Some(ERROR)));
    let (label, style, _) = message_style(MessageKind::User);
    assert_eq!((label, style.fg), ("▸ You", Some(INFO)));
}

#[test]
fn wide_welcome_shows_identity_model_and_workspace() {
    let info = AppInfo {
        workspace: "/repo/noya".to_string(),
        model: "deepseek".to_string(),
        model_id: "deepseek-v4-flash".to_string(),
    };

    let rendered = text(&welcome_lines(&info, 80, "0.3.0", None));

    assert!(rendered.contains("Noya v0.3.0"));
    assert!(rendered.contains("DeepSeek · deepseek-v4-flash"));
    assert!(rendered.contains("/repo/noya"));
    assert!(rendered.contains("Welcome to Noya."));
    assert!(rendered.contains("█   █  ███  █   █  ███"));
    assert!(!rendered.contains("System"));
}

#[test]
fn compact_welcome_keeps_runtime_information() {
    let info = AppInfo {
        workspace: "/repo".to_string(),
        model: "qwen".to_string(),
        model_id: "qwen3-coder-plus".to_string(),
    };

    let rendered = text(&welcome_lines(&info, 40, "0.3.0", None));

    assert!(rendered.contains("Noya"));
    assert!(rendered.contains("Qwen · qwen3-coder-plus"));
    assert!(rendered.contains("/repo"));
    assert!(rendered.contains("█ █ █ █   █   █   █████"));
}

#[test]
fn directories_below_home_begin_with_a_tilde() {
    assert_eq!(display_workspace("/home/u/x/y", Some("/home/u")), "~/x/y");
    assert_eq!(display_workspace("/home/u", Some("/home/u/")), "~");
    assert_eq!(display_workspace("/home/user", Some("/home/u")), "/home/user");
    assert_eq!(display_workspace("/x", Some("/")), "~/x");
    assert_eq!(display_workspace("/x", None), "/x");
    assert_eq!(display_model_name("kimi"), "Kimi");
    assert_eq!(display_model_name("other"), "other");
}

#[test]
fn command_menu_renders_selection_descriptions_and_navigation_hint() {
    let mut app = app();
    app.input = "/".to_string();
    app.input_changed();

    let rendered = text(&command_menu_lines(&app, 6));

    assert!(rendered.contains("› new"));
    assert!(rendered.contains("Start a new session"));
    assert!(rendered.contains("↑/↓ navigate"));
    assert!(rendered.contains("(1/19)"));
}

#[test]
fn the_menu_follows_the_selection() {
    let mut app = app();
    app.input = "/".to_string();
    app.command_selection = 7;
    let lines = command_menu_lines(&app, 6);
    assert_eq!(lines.len(), 6);
    assert!(lines[4].to_text().starts_with("› "));
    assert!(lines[4].style.bold);
    assert_eq!(lines[4].spans[1].style.fg, Some(ACCENT_SOFT));
    assert_eq!(lines[0].spans[0].style.fg, Some(DIM));
    app.command_selection = 1000;
    assert!(text(&command_menu_lines(&app, 3)).contains("(19/19)"));
    assert_eq!(command_menu_lines(&app, 1).len(), 1);
    assert!(command_menu_lines(&app, 0).is_empty());
}

#[test]
fn command_menu_is_laid_out_below_the_input() {
    let areas = tui_areas(
        Area {
            x: 0,
            y: 0,
            width: 80,
            height: VIEWPORT_HEIGHT,
        },
        true,
    );
    let (stream, status, input, menu) = (areas[0], areas[1], areas[2], areas[3]);

    assert!(stream.height == 0);
    assert_eq!(status.height, 1);
    assert_eq!(input.height, 3);
    assert_eq!(menu.y, input.y + input.height);
    assert_eq!(menu.height, COMMAND_MENU_HEIGHT);
    assert_eq!(areas.len(), 4);
}

#[test]
fn a_short_terminal_still_has_four_rows() {
    for height in 0..12u16 {
        let whole = Area {
            x: 2,
            y: 3,
            width: 20,
            height,
        };
        let areas = tui_areas(whole, true);
        assert_eq!(areas.len(), 4);
        for area in &areas {
            assert_eq!((area.x, area.width), (2, 20));
            assert!(area.y >= 3 && area.y + area.height <= 3 + height);
        }
        if height >= 10 {
            assert_eq!(areas[0].height, height - 10);
            assert_eq!(areas[1].y, 3 + height - 10);
            assert_eq!(areas[2].y, areas[1].y + 1);
            assert_eq!(areas[3].y, areas[1].y + 4);
            assert_eq!(areas[3].height, COMMAND_MENU_HEIGHT);
        }
    }
}

#[test]
fn rows_end_at_the_last_place() {
    let whole = Area {
        x: u16::MAX - 4,
        y: u16::MAX - 9,
        width: 20,
        height: 20,
    };
    let areas = tui_areas(whole, false);
    assert_eq!(areas[0].height, 5);
    assert_eq!(areas[2].y, u16::MAX - 3);
    assert_eq!(areas[2].width, 4);
}

#[test]
fn input_area_leaves_a_row_for_text_inside_borders() {
    let areas = tui_areas(
        Area {
            x: 0,
            y: 0,
            width: 80,
            height: VIEWPORT_HEIGHT,
        },
        false,
    );
    let input = areas[2];
    let inner = Block::default()
        .borders(Borders::ALL)
        .inner(Rect::new(input.x, input.y, input.width, input.height));

    assert_eq!(inner.height, 1);
}

#[test]
fn formats_elapsed_status_for_seconds_and_minutes() {
    assert_eq!(format_elapsed(Duration::from_secs(9).as_secs()), "9s");
    assert_eq!(format_elapsed(Duration::from_secs(125).as_secs()), "2m 05s");
    assert_eq!(format_elapsed(60 * 61 + 59), "61m 59s");
}

#[test]
fn model_menu_renders_choices_and_current_marker() {
    let mut app = app();
    app.open_model_menu(vec![
        ModelChoice {
            model: "deepseek".to_string(),
            model_id: "deepseek-v4-flash".to_string(),
            current: false,
        },
        ModelChoice {
            model: "qwen".to_string(),
            model_id: "qwen3-coder-plus".to_string(),
            current: true,
        },
    ]);

    let rendered = text(&model_menu_lines(&app, 6));

    assert!(rendered.contains("deepseek"));
    assert!(rendered.contains("› qwen"));
    assert!(rendered.contains("✓ current"));
    assert!(rendered.contains("All models"));
}

#[test]
fn secret_input_maps_utf8_cursor_to_masked_input_index() {
    let input = "é";
    let rendered_cursor = rendered_cursor_position(input, "•", input.len(), true);
    let (visible, cursor_column) = visible_input("•", rendered_cursor, 10);

    assert_eq!(visible, "•");
    assert_eq!(cursor_column, 1);
}

#[test]
fn a_long_input_scrolls_with_its_cursor() {
    assert_eq!(
        input_part("abcdefghij", 10, 4),
        Some(("hij".to_string(), 3))
    );
    assert_eq!(
        input_part("abcdefghij", 0, 4),
        Some(("abcd".to_string(), 0))
    );
    assert_eq!(
        input_part("中文输出", 12, 5),
        Some(("输出".to_string(), 4))
    );
    assert_eq!(input_part("abc", 1, 0), Some((String::new(), 0)));
    assert_eq!(input_part("abc", 9, 5), Some(("abc".to_string(), 3)));
    assert_eq!(input_part("\u{1}\u{1}\u{1}\u{1}\u{1}xxxxx", 5, 2), None);
    assert_eq!(rendered_cursor_position("ab", "ab", 1, false), 1);
    assert_eq!(rendered_cursor_position("éa", "••", 2, true), 3);
}

#[test]
fn a_secret_is_masked() {
    let mut app = app();
    app.input = "né".to_string();
    assert_eq!(masked_input(&app), "né");
    app.begin_model_setup("qwen".to_string(), "u".to_string());
    app.submit_model_setup_input();
    app.submit_model_setup_input();
    app.submit_model_setup_input();
    app.input = "né".to_string();
    assert_eq!(masked_input(&app), "••");
    assert_eq!(
        input_line(&app, String::new()).to_text(),
        "> API key"
    );
    assert_eq!(input_line(&app, "••".to_string()).to_text(), "> ••");
    app.cancel_model_setup();
    assert_eq!(
        input_line(&app, String::new()).to_text(),
        "> Type a request. /help for commands."
    );
    app.open_model_menu(Vec::new());
    assert_eq!(
        input_line(&app, "x".to_string()).to_text(),
        "> Select a model with ↑/↓ and Enter."
    );
}

#[test]
fn the_status_tells_what_the_agent_does() {
    let mut app = app();
    assert_eq!(status_line(&app, 0, None).to_text(), "· Ready");
    app.handle_submission("task".to_string());
    app.status_message = Some("note".to_string());
    app.notify_background_worker();
    app.turn_output_tokens = 12;
    assert_eq!(
        status_line(&app, 11, Some(61)).to_text(),
        "· ⠙ Thinking (1m 01s · ↓ 12 tokens)  note  · 1 background notification(s)  Esc cancel"
    );
    assert_eq!(spinner(9), "⠏");
    app.clear_background_notifications();
    assert_eq!(app.background_notifications, 0);
}

#[test]
fn streaming_output_commits_completed_lines_before_the_message_finishes() {
    let mut message = Message::new(
        MessageKind::Agent,
        "first line\n\nsecond line\n\nactive line",
    );
    message.is_streaming = true;
    let lines = message_lines(&message, 40);

    let range = transcript_line_range(true, 0, lines.len());

    assert_eq!(range, 0..lines.len().saturating_sub(2));
    assert!(!range.is_empty());
}

#[test]
fn streaming_output_only_appends_new_lines_and_flushes_the_tail_at_completion() {
    assert_eq!(transcript_line_range(true, 0, 7), 0..5);
    assert_eq!(transcript_line_range(true, 5, 9), 5..7);
    assert_eq!(transcript_line_range(false, 7, 10), 7..10);
}

#[test]
fn messages_leave_the_interface_once() {
    let mut app = app();
    let mut runtime = UiRuntime::new();
    app.add_message(Message::new(MessageKind::System, "hello"));
    let mut live = Message::new(MessageKind::Agent, "a\n\nb\n\nc");
    live.is_streaming = true;
    let id = live.id;
    app.streaming_message_id = Some(id);
    app.add_message(live);
    let first = runtime.flush_unrendered_messages(&app, 20);
    assert_eq!(text(&first), "· System\n  hello\n\n◆ Noya\n  a\n  \n  b\n  ");
    assert!(runtime.flush_unrendered_messages(&app, 20).is_empty());
    let view = runtime.stream_view(&app).unwrap();
    assert_eq!(
        view,
        StreamView {
            committed_lines: 5,
            render_width: 20
        }
    );
    assert_eq!(text(&stream_lines(&app, Some(view), 20, 4)), "  c");
    assert_eq!(
        text(&stream_lines(&app, None, 20, 2)),
        "  \n  c"
    );
    app.messages[1].is_streaming = false;
    app.streaming_message_id = None;
    let rest = runtime.flush_unrendered_messages(&app, 20);
    assert_eq!(text(&rest), "  c\n");
    assert!(runtime.flush_unrendered_messages(&app, 20).is_empty());
    assert!(stream_lines(&app, None, 20, 4).is_empty());
    runtime.clear();
    assert_eq!(runtime.flush_unrendered_messages(&app, 20).len(), 10);
}
