use noya::tui::app::{AgentState, App, AppInfo, AppMode, ModelChoice, TuiAction};
use noya::tui::event::{
    handle_key_event, handle_key_event_as, next_char_boundary, prev_char_boundary, KeyCode, KeyEvent,
};

fn app() -> App {
    App::new(AppInfo {
        workspace: "/repo".to_string(),
        model: "test".to_string(),
        model_id: "test-model".to_string(),
    })
}

fn key(code: KeyCode) -> KeyEvent {
    KeyEvent {
        code,
        control: false,
    }
}

fn control(code: KeyCode) -> KeyEvent {
    KeyEvent {
        code,
        control: true,
    }
}

fn type_text(app: &mut App, text: &str) {
    for character in text.chars() {
        handle_key_event(key(KeyCode::Char(character)), app);
    }
}

#[test]
fn editing_is_utf8_safe() {
    let mut app = app();
    handle_key_event(key(KeyCode::Char('你')), &mut app);
    handle_key_event(key(KeyCode::Char('好')), &mut app);
    assert_eq!(app.input, "你好");
    assert_eq!(app.cursor_position, "你好".len());

    handle_key_event(key(KeyCode::Left), &mut app);
    handle_key_event(key(KeyCode::Backspace), &mut app);
    assert_eq!(app.input, "好");
    assert_eq!(app.cursor_position, 0);
}

#[test]
fn the_cursor_moves_and_deletes_whole_characters() {
    let mut app = app();
    type_text(&mut app, "aé你😀");
    handle_key_event(key(KeyCode::Home), &mut app);
    assert_eq!(app.cursor_position, 0);
    handle_key_event(key(KeyCode::Right), &mut app);
    handle_key_event(key(KeyCode::Right), &mut app);
    assert_eq!(app.cursor_position, 3);
    handle_key_event(key(KeyCode::Delete), &mut app);
    assert_eq!(app.input, "aé😀");
    handle_key_event(key(KeyCode::End), &mut app);
    assert_eq!(app.cursor_position, 7);
    handle_key_event(key(KeyCode::Right), &mut app);
    assert_eq!(app.cursor_position, 7);
    handle_key_event(key(KeyCode::Delete), &mut app);
    assert_eq!(app.input, "aé😀");
    handle_key_event(key(KeyCode::Backspace), &mut app);
    assert_eq!(app.input, "aé");
    handle_key_event(key(KeyCode::Left), &mut app);
    assert_eq!(app.cursor_position, 1);
    handle_key_event(key(KeyCode::Char('x')), &mut app);
    assert_eq!(app.input, "axé");
    handle_key_event(key(KeyCode::Other), &mut app);
    assert_eq!(app.cursor_position, 2);
}

#[test]
fn typing_and_taking_back_leaves_everything_as_it_was() {
    let mut app = app();
    type_text(&mut app, "ab");
    handle_key_event(key(KeyCode::Left), &mut app);
    handle_key_event(key(KeyCode::Char('你')), &mut app);
    handle_key_event(key(KeyCode::Backspace), &mut app);
    assert_eq!(app.input, "ab");
    assert_eq!(app.cursor_position, 1);
    handle_key_event(key(KeyCode::Right), &mut app);
    handle_key_event(key(KeyCode::Left), &mut app);
    assert_eq!(app.cursor_position, 1);
}

#[test]
fn ctrl_c_cancels_active_turn_and_quits_when_idle() {
    let mut app = app();
    app.agent_state = AgentState::Generating;
    let key = control(KeyCode::Char('c'));
    assert_eq!(handle_key_event(key, &mut app), TuiAction::Cancel);

    app.agent_state = AgentState::Idle;
    assert_eq!(handle_key_event(key, &mut app), TuiAction::Quit);
}

#[test]
fn ctrl_d_quits_at_once() {
    let mut app = app();
    app.agent_state = AgentState::Generating;
    assert_eq!(
        handle_key_event(control(KeyCode::Char('d')), &mut app),
        TuiAction::Quit
    );
    assert!(app.should_quit);
    assert_eq!(
        handle_key_event(control(KeyCode::Char('x')), &mut app),
        TuiAction::Nothing
    );
}

#[test]
fn slash_menu_navigates_with_arrows_and_runs_the_selected_command() {
    let mut app = app();
    handle_key_event(key(KeyCode::Char('/')), &mut app);
    assert_eq!(app.command_suggestions()[0].name, "new");

    handle_key_event(key(KeyCode::Down), &mut app);
    assert_eq!(app.command_selection, 1);
    assert_eq!(
        handle_key_event(key(KeyCode::Enter), &mut app),
        TuiAction::ListModels
    );
    assert!(app.input.is_empty());
}

#[test]
fn selecting_a_command_with_arguments_completes_the_input() {
    let mut app = app();
    type_text(&mut app, "/resu");

    assert_eq!(
        handle_key_event(key(KeyCode::Enter), &mut app),
        TuiAction::Nothing
    );
    assert_eq!(app.input, "/resume ");
    assert_eq!(app.cursor_position, app.input.len());
    assert!(app.command_suggestions().is_empty());
}

#[test]
fn up_wraps_to_the_last_suggestion_and_escape_closes_the_menu() {
    let mut app = app();
    handle_key_event(key(KeyCode::Char('/')), &mut app);
    let count = app.command_suggestions().len();

    handle_key_event(key(KeyCode::Up), &mut app);
    assert_eq!(app.command_selection, count - 1);
    handle_key_event(key(KeyCode::Esc), &mut app);
    assert!(app.command_suggestions().is_empty());
    assert_eq!(app.input, "/");
}

#[test]
fn tab_completes_without_executing_the_command() {
    let mut app = app();
    type_text(&mut app, "/stat");

    assert_eq!(
        handle_key_event(key(KeyCode::Tab), &mut app),
        TuiAction::Nothing
    );
    assert_eq!(app.input, "/status");
    assert!(app.messages.is_empty());
    assert!(app.command_suggestions().is_empty());
}

#[test]
fn model_menu_uses_arrows_enter_and_escape() {
    let mut app = app();
    app.open_model_menu(vec![
        ModelChoice {
            model: "deepseek".to_string(),
            model_id: "deepseek-v4-flash".to_string(),
            current: true,
        },
        ModelChoice {
            model: "qwen".to_string(),
            model_id: "qwen3-coder-plus".to_string(),
            current: false,
        },
    ]);

    handle_key_event(key(KeyCode::Down), &mut app);
    assert_eq!(app.model_selection, 1);
    assert_eq!(
        handle_key_event(key(KeyCode::Enter), &mut app),
        TuiAction::SwitchModel("qwen".to_string())
    );

    app.open_model_menu(vec![ModelChoice {
        model: "deepseek".to_string(),
        model_id: "deepseek-v4-flash".to_string(),
        current: true,
    }]);
    handle_key_event(key(KeyCode::Esc), &mut app);
    assert_eq!(app.mode, AppMode::Normal);
    assert!(app.model_choices.is_empty());
}

#[test]
fn keys_edit_the_answers_of_a_setup() {
    let mut app = app();
    app.begin_model_setup("qwen".to_string(), "u".to_string());
    type_text(&mut app, "bearrx");
    handle_key_event(key(KeyCode::Backspace), &mut app);
    assert_eq!(app.input, "bearr");
    handle_key_event(key(KeyCode::Esc), &mut app);
    assert_eq!(app.mode, AppMode::Normal);
    assert!(app.input.is_empty());
}

#[test]
fn enter_submits_a_task_under_the_given_identifier() {
    let mut app = app();
    type_text(&mut app, "do it");
    assert_eq!(
        handle_key_event_as(key(KeyCode::Enter), &mut app, 99),
        TuiAction::Submit("do it".to_string())
    );
    assert_eq!(app.messages[0].id, 99);
}

#[test]
fn boundaries_are_neighbours() {
    let text = "aé漢🙂";
    let places = [0, 1, 3, 6, 10];
    for pair in places.windows(2) {
        assert_eq!(next_char_boundary(text, pair[0]), pair[1]);
        assert_eq!(prev_char_boundary(text, pair[1]), pair[0]);
    }
    assert_eq!(prev_char_boundary(text, 0), 0);
    assert_eq!(next_char_boundary(text, 10), 10);
    assert_eq!(prev_char_boundary(text, usize::MAX), 6);
    assert_eq!(next_char_boundary(text, usize::MAX), 10);
}
