use noya::agent::control::ApprovalDecision;
use noya::agent::diagnostics::TurnDiagnostics;
use noya::agent::event::AgentEvent;
use noya::model::{AuthenticationMode, ProviderProtocol};
use noya::session::model::TurnId;
use noya::tui::app::{
    compact_json, AgentState, App, AppInfo, AppMode, Message, MessageKind, ModelChoice, TuiAction,
    MAX_MESSAGE_HISTORY,
};
use noya::tui::command::{commands, suggestions};

fn app() -> App {
    App::new(AppInfo {
        workspace: "/repo".to_string(),
        model: "test".to_string(),
        model_id: "test-model".to_string(),
    })
}

fn turn() -> TurnId {
    TurnId(7)
}

fn delta(chunk: &str, is_final: bool) -> AgentEvent {
    AgentEvent::TextDelta {
        turn_id: turn(),
        message_id: 1,
        chunk: chunk.to_string(),
        is_final,
    }
}

fn tool_started(call_id: &str, arguments: &str) -> AgentEvent {
    AgentEvent::ToolStarted {
        turn_id: turn(),
        call_id: call_id.to_string(),
        name: "read_file".to_string(),
        arguments: arguments.to_string(),
    }
}

#[test]
fn text_deltas_update_one_streaming_message() {
    let mut app = app();

    app.handle_agent_event(AgentEvent::TurnStarted { turn_id: turn() });
    app.handle_agent_event(delta("Hel", false));
    app.handle_agent_event(delta("lo", false));

    assert_eq!(app.messages.len(), 1);
    assert_eq!(app.messages[0].content, "Hello");
    assert!(app.messages[0].is_streaming);
    assert_eq!(app.agent_state, AgentState::Generating);

    app.handle_agent_event(delta("", true));

    assert!(!app.messages[0].is_streaming);
    assert_eq!(app.streaming_message_id, None);
}

#[test]
fn tool_completion_updates_matching_call_id() {
    let mut app = app();
    app.handle_agent_event(tool_started("first", "{\"path\":\"a\"}"));
    app.handle_agent_event(tool_started("second", "{\"path\":\"b\"}"));

    app.handle_agent_event(AgentEvent::ToolFinished {
        turn_id: turn(),
        call_id: "first".to_string(),
        name: "read_file".to_string(),
        result: "{\"content\":\"A\"}".to_string(),
        success: true,
    });

    assert!(!app.messages[0].is_streaming);
    assert!(app.messages[1].is_streaming);
    assert_eq!(
        app.messages[0].content,
        "read_file completed: {\"content\":\"A\"}"
    );
    assert_eq!(app.messages[1].content, "read_file {\"path\":\"b\"}");
}

#[test]
fn a_tool_result_without_its_call_is_told_on_its_own() {
    let mut app = app();
    app.handle_agent_event(AgentEvent::ToolFinished {
        turn_id: turn(),
        call_id: "lost".to_string(),
        name: "git_status".to_string(),
        result: "\"boom\"".to_string(),
        success: false,
    });
    assert_eq!(app.messages.len(), 1);
    assert_eq!(app.messages[0].content, "git_status failed: \"boom\"");
    assert_eq!(app.messages[0].tool_call_id.as_deref(), Some("lost"));
    assert_eq!(app.agent_state, AgentState::Thinking);
}

#[test]
fn busy_agent_rejects_another_submission() {
    let mut app = app();
    app.agent_state = AgentState::Generating;

    let action = app.handle_submission("another task".to_string());

    assert_eq!(action, TuiAction::Nothing);
    assert!(app.status_message.as_deref().unwrap().contains("busy"));
}

#[test]
fn busy_agent_rejects_reset() {
    let mut app = app();
    app.agent_state = AgentState::RunningTool;

    let action = app.handle_submission("/reset".to_string());

    assert_eq!(action, TuiAction::Nothing);
    assert!(app.status_message.as_deref().unwrap().contains("busy"));
}

#[test]
fn a_failed_turn_allows_a_new_submission() {
    let mut app = app();
    app.agent_state = AgentState::Error;
    let action = app.handle_submission("again".to_string());
    assert_eq!(action, TuiAction::Submit("again".to_string()));
    assert_eq!(app.agent_state, AgentState::Thinking);
    assert_eq!(app.messages[0].kind, MessageKind::User);
}

#[test]
fn status_uses_model_terminology() {
    let mut app = app();

    assert_eq!(
        app.handle_submission("/status".to_string()),
        TuiAction::Nothing
    );

    let status = &app.messages.last().unwrap().content;
    assert!(status.contains("Model: test"));
    assert!(status.contains("Model ID: test-model"));
    assert!(!status.contains("Provider:"));
    assert_eq!(
        status,
        "Workspace: /repo\nModel: test\nModel ID: test-model\nState: Idle"
    );
}

#[test]
fn approval_commands_return_structured_decisions() {
    let mut app = app();
    app.mode = AppMode::Confirming;

    assert_eq!(
        app.handle_submission("/approve".to_string()),
        TuiAction::Approval(ApprovalDecision::Approve)
    );
    assert_eq!(
        app.handle_submission("/modify {\"command\":\"cargo test\"}".to_string()),
        TuiAction::Approval(ApprovalDecision::Modify(
            "{\"command\":\"cargo test\"}".to_string()
        ))
    );
    assert_eq!(
        app.handle_submission("/reject".to_string()),
        TuiAction::Approval(ApprovalDecision::Reject)
    );
}

#[test]
fn changed_arguments_have_to_be_json() {
    let mut app = app();
    app.mode = AppMode::Confirming;
    assert_eq!(
        app.handle_submission("/modify {oops".to_string()),
        TuiAction::Nothing
    );
    assert!(app
        .status_message
        .as_deref()
        .unwrap()
        .starts_with("Invalid JSON: key must be a string"));
    assert_eq!(
        app.handle_submission("/modify  { \"b\" : [ 1, 2 ] } ".to_string()),
        TuiAction::Approval(ApprovalDecision::Modify("{\"b\":[1,2]}".to_string()))
    );
}

#[test]
fn approval_commands_are_unknown_without_a_request() {
    let mut app = app();
    assert_eq!(
        app.handle_submission("/approve".to_string()),
        TuiAction::Nothing
    );
    assert_eq!(
        app.status_message.as_deref(),
        Some("Unknown command: /approve")
    );
}

#[test]
fn interrupted_stream_keeps_partial_text_and_returns_to_idle() {
    let mut app = app();
    app.handle_agent_event(AgentEvent::TurnStarted { turn_id: turn() });
    app.handle_agent_event(delta("partial", false));

    app.handle_agent_event(AgentEvent::Error {
        turn_id: Some(turn()),
        message: "connection closed".to_string(),
        recoverable: true,
    });
    app.handle_agent_event(AgentEvent::TurnCompleted { turn_id: turn() });

    assert_eq!(app.messages[0].content, "partial");
    assert!(!app.messages[0].is_streaming);
    assert_eq!(app.agent_state, AgentState::Idle);
    assert_eq!(app.messages[1].kind, MessageKind::Error);
    assert_eq!(app.messages[1].content, "Recoverable error: connection closed");
}

#[test]
fn a_request_is_put_to_the_user() {
    let mut app = app();
    app.handle_agent_event(AgentEvent::ApprovalRequired {
        turn_id: turn(),
        request_id: "r".to_string(),
        call_id: "c".to_string(),
        tool_name: "run_command".to_string(),
        arguments: "{\"command\":\"ls\"}".to_string(),
    });
    assert_eq!(app.mode, AppMode::Confirming);
    assert_eq!(app.agent_state, AgentState::WaitingApproval);
    assert_eq!(
        app.messages[0].content,
        "Approval required for run_command: {\"command\":\"ls\"}\nUse /approve, /reject, or /modify <json>."
    );
    assert_eq!(
        app.pending_approval.as_ref().unwrap().request_id,
        "r".to_string()
    );
}

#[test]
fn the_tokens_of_a_turn_are_counted_anew() {
    let mut app = app();
    let mut diagnostics = TurnDiagnostics::default();
    diagnostics.usage.output_tokens = 42;
    app.handle_agent_event(AgentEvent::DiagnosticsUpdated {
        turn_id: turn(),
        diagnostics,
    });
    assert_eq!(app.turn_output_tokens, 42);
    app.handle_agent_event(AgentEvent::TurnStarted { turn_id: turn() });
    assert_eq!(app.turn_output_tokens, 0);
}

#[test]
fn only_the_latest_messages_are_kept() {
    let mut app = app();
    for index in 0..MAX_MESSAGE_HISTORY + 5 {
        app.add_message(Message::new(MessageKind::System, &index.to_string()));
    }
    assert_eq!(app.messages.len(), MAX_MESSAGE_HISTORY);
    assert_eq!(app.messages[0].content, "5");
}

#[test]
fn long_json_is_cut() {
    let short = "x".repeat(500);
    assert_eq!(compact_json(&short), short);
    let long = "é".repeat(501);
    let shown = compact_json(&long);
    assert_eq!(shown.chars().count(), 501);
    assert!(shown.ends_with('…'));
}

#[test]
fn commands_lead_to_their_actions() {
    let mut app = app();
    let pairs = vec![
        ("/new", TuiAction::NewSession),
        ("/model", TuiAction::ListModels),
        ("/model qwen", TuiAction::SwitchModel("qwen".to_string())),
        ("/sessions", TuiAction::ListSessions),
        ("/tree", TuiAction::ShowTree),
        ("/branch fix", TuiAction::Branch("fix".to_string())),
        ("/resume 019", TuiAction::ResumeSession("019".to_string())),
        ("/rename  a b ", TuiAction::RenameSession("a b".to_string())),
        ("/retry", TuiAction::Retry),
        ("/compact", TuiAction::Compact),
        ("/skills", TuiAction::ListSkills),
        ("/skill x", TuiAction::ActivateSkill("x".to_string())),
        ("/skill off x", TuiAction::DeactivateSkill("x".to_string())),
        ("/skill show x", TuiAction::ShowSkill("x".to_string())),
        ("/projects", TuiAction::ListProjects),
        ("/project 2", TuiAction::SwitchProject("2".to_string())),
        ("/cancel", TuiAction::Cancel),
        ("/clear", TuiAction::Clear),
        ("/reset", TuiAction::Reset),
        ("/nonsense", TuiAction::Nothing),
        ("/quit", TuiAction::Quit),
    ];
    for (input, action) in pairs {
        assert_eq!(app.handle_submission(input.to_string()), action, "{}", input);
    }
    assert!(app.should_quit);
    assert_eq!(
        app.status_message.as_deref(),
        Some("Unknown command: /nonsense")
    );
}

#[test]
fn an_empty_input_is_not_submitted() {
    let mut app = app();
    app.input = "  ".to_string();
    app.cursor_position = 2;
    assert_eq!(app.submit_input(), TuiAction::Nothing);
    assert_eq!(app.input, "  ");
    app.input = " hello ".to_string();
    assert_eq!(app.submit_input(), TuiAction::Submit("hello".to_string()));
    assert!(app.input.is_empty());
    assert_eq!(app.cursor_position, 0);
}

#[test]
fn filters_commands_by_prefix_and_mode() {
    let normal = suggestions("/re", AppMode::Normal)
        .into_iter()
        .map(|command| command.name)
        .collect::<Vec<_>>();
    assert_eq!(normal, vec!["resume", "rename", "retry", "reset"]);
    assert_eq!(suggestions("/mo", AppMode::Normal)[0].name, "model");
    assert!(suggestions("/app", AppMode::Normal).is_empty());
    assert_eq!(suggestions("/app", AppMode::Confirming)[0].name, "approve");
}

#[test]
fn closes_suggestions_after_an_argument_separator() {
    assert!(suggestions("/resume ", AppMode::Normal).is_empty());
    assert!(suggestions("plain text", AppMode::Normal).is_empty());
}

#[test]
fn every_command_has_its_own_name() {
    let all = commands();
    for (index, command) in all.iter().enumerate() {
        assert!(all[index + 1..].iter().all(|other| other.name != command.name));
        assert_eq!(command.input(), format!("/{}", command.name));
    }
}

#[test]
fn a_model_is_set_up_step_by_step() {
    let mut app = app();
    app.begin_model_setup("kimi".to_string(), "https://a.example".to_string());
    assert_eq!(app.mode, AppMode::ConfiguringModel);
    assert_eq!(
        app.model_setup_prompt().as_deref(),
        Some("Protocol (openai-compatible or anthropic-messages)")
    );
    app.input = "smoke signals".to_string();
    assert_eq!(app.submit_model_setup_input(), TuiAction::Nothing);
    assert_eq!(
        app.status_message.as_deref(),
        Some("Unknown protocol: smoke signals")
    );
    app.input = "Anthropic-Messages".to_string();
    assert_eq!(app.submit_model_setup_input(), TuiAction::Nothing);
    assert_eq!(
        app.model_setup_prompt().as_deref(),
        Some("Base URL (empty keeps https://a.example)")
    );
    app.input = "https://b.example".to_string();
    assert_eq!(app.submit_model_setup_input(), TuiAction::Nothing);
    app.input = "shouting".to_string();
    assert_eq!(app.submit_model_setup_input(), TuiAction::Nothing);
    assert_eq!(
        app.status_message.as_deref(),
        Some("Unknown authentication mode: shouting")
    );
    app.input = "x-api-key".to_string();
    assert_eq!(app.submit_model_setup_input(), TuiAction::Nothing);
    assert!(app.model_setup_is_secret());
    app.input = "".to_string();
    assert_eq!(app.submit_model_setup_input(), TuiAction::Nothing);
    assert_eq!(
        app.status_message.as_deref(),
        Some("API key cannot be empty.")
    );
    app.input = " secret ".to_string();
    assert_eq!(
        app.submit_model_setup_input(),
        TuiAction::FetchModelChoices {
            model: "kimi".to_string(),
            base_url: "https://b.example".to_string(),
            api_key: "secret".to_string(),
            protocol: ProviderProtocol::AnthropicMessages,
            authentication: AuthenticationMode::XApiKey,
        }
    );
    app.begin_model_selection(
        "kimi".to_string(),
        "https://b.example".to_string(),
        "secret".to_string(),
        vec!["k1".to_string(), "k2".to_string()],
        ProviderProtocol::AnthropicMessages,
        AuthenticationMode::XApiKey,
    );
    assert_eq!(app.mode, AppMode::SelectingModel);
    app.select_next_model();
    assert_eq!(
        app.accept_selected_model(),
        TuiAction::ConfigureModel {
            model: "kimi".to_string(),
            base_url: "https://b.example".to_string(),
            api_key: "secret".to_string(),
            model_id: "k2".to_string(),
            protocol: ProviderProtocol::AnthropicMessages,
            authentication: AuthenticationMode::XApiKey,
        }
    );
    assert_eq!(app.mode, AppMode::Normal);
    app.begin_model_setup("kimi".to_string(), "u".to_string());
    app.cancel_model_setup();
    assert_eq!(app.model_setup_prompt(), None);
    assert_eq!(app.mode, AppMode::Normal);
}

#[test]
fn a_listed_model_is_switched_to_by_its_id() {
    let mut app = app();
    app.open_model_menu(vec![ModelChoice {
        model: "qwen".to_string(),
        model_id: "qwen-max".to_string(),
        current: false,
    }]);
    assert_eq!(
        app.accept_selected_model(),
        TuiAction::SwitchModelTo {
            model: "qwen".to_string(),
            model_id: "qwen-max".to_string()
        }
    );
    app.open_model_menu(Vec::new());
    assert_eq!(app.accept_selected_model(), TuiAction::Nothing);
}

#[test]
fn messages_can_be_given_their_identifiers() {
    let mut app = app();
    app.handle_agent_event_as(delta("a", false), 11);
    assert_eq!(app.messages[0].id, 11);
    assert_eq!(app.current_streaming_message().unwrap().id, 11);
    assert_eq!(
        app.handle_submission_as("/help".to_string(), 12),
        TuiAction::Nothing
    );
    assert_eq!(app.messages[1].id, 12);
    assert_eq!(
        app.messages[1].content,
        "Commands: /help /clear /reset /status /cancel /quit"
    );
    let first = Message::new(MessageKind::User, "x");
    let second = Message::new(MessageKind::User, "x");
    assert_ne!(first.id, second.id);
}

#[test]
fn the_selected_command_is_accepted() {
    let mut app = app();
    assert!(app.accept_selected_command().is_none());
    app.input = "/ne".to_string();
    app.cursor_position = 3;
    assert_eq!(app.accept_selected_command(), Some(TuiAction::NewSession));
    app.input = "/rena".to_string();
    app.cursor_position = 5;
    assert_eq!(app.accept_selected_command(), Some(TuiAction::Nothing));
    assert_eq!(app.input, "/rename ");
}

#[test]
fn a_session_is_reset_after_an_error() {
    let mut app = app();
    app.agent_state = AgentState::Error;
    assert_eq!(app.handle_submission("/reset".to_string()), TuiAction::Reset);
    app.agent_state = AgentState::RunningTool;
    assert_eq!(app.handle_submission("/reset".to_string()), TuiAction::Nothing);
}
