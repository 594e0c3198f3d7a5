use noya::cli::{
    check_executable, check_workspace, confirms, given_base_url, installer_url,
    is_development_binary, keep_archived, login_settings, login_text, logout_model, logout_text,
    render_models, render_sessions, render_sessions_with, resume_choice,
};
use noya::model::{AuthenticationMode, Model, ModelStatus, ProviderProtocol};
use noya::session::model::{SessionId, SessionStatus, SessionSummary};

fn summary(id: u128, updated_at: i128, archived: bool) -> SessionSummary {
    SessionSummary {
        schema_version: 1,
        session_id: SessionId(id),
        title: "a title".to_string(),
        workspace: "/w".to_string(),
        model: "qwen".to_string(),
        model_id: "q".to_string(),
        created_at: 0,
        updated_at,
        status: SessionStatus::Idle,
        last_seq: 1,
        completed_turns: 3,
        context_epoch: 0,
        compaction_through_seq: None,
        parent_session_id: None,
        active_branch_id: None,
        active_head_seq: 1,
        branch_count: 1,
        archived,
        active_skills: Vec::new(),
    }
}

#[test]
fn model_list_shows_default_ids_and_status() {
    let rendered = render_models(&[
        ModelStatus {
            model: Model::OpenAi,
            logged_in: false,
            active: false,
        },
        ModelStatus {
            model: Model::Qwen,
            logged_in: true,
            active: true,
        },
    ]);

    assert!(rendered.contains("MODEL ID"));
    assert!(rendered.contains("openai  gpt-4o"));
    assert!(rendered.contains("qwen    qwen3-coder-plus  active"));
    assert_eq!(
        rendered,
        "MODEL   MODEL ID          STATUS\nopenai  gpt-4o            not logged in\nqwen    qwen3-coder-plus  active"
    );
    assert_eq!(render_models(&[]), "MODEL  MODEL ID  STATUS");
}

#[test]
fn sessions_are_listed_in_columns() {
    let list = vec![summary(1, 0, false)];
    assert_eq!(
        render_sessions(&list),
        "SESSION       UPDATED               MODEL       TURNS  TITLE\n00000000-000  1970-01-01T00:00:00Z  qwen            3  a title"
    );
    assert_eq!(
        render_sessions_with(&list, &vec!["x".repeat(30)]),
        format!(
            "SESSION       UPDATED               MODEL       TURNS  TITLE\n00000000-000  {}  qwen            3  a title",
            "x".repeat(20)
        )
    );
    let ancient = render_sessions(&vec![summary(1, -300_000_000_000_000_000_000, false)]);
    assert!(ancient.contains("00000000-000  -"));
    let never = render_sessions(&vec![summary(1, i128::MAX, false)]);
    assert!(never.contains("00000000-000                        qwen"));
}

#[test]
fn archived_sessions_are_told_apart() {
    let list = || vec![summary(1, 0, false), summary(2, 0, true), summary(3, 0, false)];
    let ids = |list: Vec<SessionSummary>| {
        list.iter().map(|s| s.session_id.0).collect::<Vec<_>>()
    };
    assert_eq!(ids(keep_archived(list(), false)), vec![1, 3]);
    assert_eq!(ids(keep_archived(list(), true)), vec![2]);
}

#[test]
fn only_an_installed_program_is_touched() {
    assert!(is_development_binary("/repo/target/debug/noya"));
    assert!(!is_development_binary("/usr/bin/target-noya"));
    assert!(check_executable("/usr/bin/noya").is_ok());
    assert_eq!(
        check_executable("/repo/target/noya").unwrap_err().message,
        "/repo/target/noya is a development binary; run upgrade/uninstall on an installed Noya binary"
    );
    assert_eq!(
        check_executable("/usr/bin/other").unwrap_err().message,
        "current executable is not a Noya binary: /usr/bin/other"
    );
    assert_eq!(
        installer_url("a/b"),
        "https://raw.githubusercontent.com/a/b/main/scripts/install.sh"
    );
    assert!(confirms(" YES\n"));
    assert!(confirms("y"));
    assert!(!confirms("yep"));
    assert!(!confirms(""));
}

#[test]
fn a_login_takes_what_is_said_or_the_defaults() {
    assert_eq!(
        login_settings(Model::Qwen, None, None).unwrap(),
        (
            ProviderProtocol::OpenAiCompatible,
            AuthenticationMode::Bearer
        )
    );
    assert_eq!(
        login_settings(
            Model::Qwen,
            Some("anthropic-messages".to_string()),
            Some("X-API-Key".to_string())
        )
        .unwrap(),
        (
            ProviderProtocol::AnthropicMessages,
            AuthenticationMode::XApiKey
        )
    );
    assert_eq!(
        login_settings(Model::Qwen, Some("x".to_string()), None)
            .unwrap_err()
            .message,
        "unsupported protocol 'x'; supported protocols: openai-compatible, anthropic-messages"
    );
    assert_eq!(
        login_settings(Model::Qwen, None, Some("x".to_string()))
            .unwrap_err()
            .message,
        "unsupported authentication mode 'x'; supported modes: bearer, x-api-key"
    );
    assert_eq!(given_base_url(" \n", "d"), "d");
    assert_eq!(given_base_url(" u \n", "d"), "u");
    assert_eq!(
        login_text(
            Model::Qwen,
            ProviderProtocol::OpenAiCompatible,
            AuthenticationMode::XApiKey,
            "/c"
        ),
        "Logged in to qwen using openai-compatible and x-api-key. Credential saved to /c."
    );
}

#[test]
fn a_logout_is_about_the_named_or_the_active_model() {
    assert_eq!(
        logout_model(Some(Model::Kimi), Some(Model::Qwen)).unwrap(),
        Model::Kimi
    );
    assert_eq!(logout_model(None, Some(Model::Qwen)).unwrap(), Model::Qwen);
    assert_eq!(
        logout_model(None, None).unwrap_err().message,
        "no model selected; run `noya logout <model>` (supported: openai, deepseek, qwen, kimi)"
    );
    assert_eq!(logout_text(Model::Kimi, true), "Logged out from kimi.");
    assert_eq!(
        logout_text(Model::Kimi, false),
        "No stored credential for kimi."
    );
}

#[test]
fn a_resumed_session_keeps_its_model_unless_another_is_named() {
    let choose = |model, id: Option<&str>| {
        resume_choice("qwen", "q1".to_string(), model, id.map(str::to_string)).unwrap()
    };
    assert_eq!(choose(None, None), (Model::Qwen, Some("q1".to_string())));
    assert_eq!(
        choose(Some(Model::Qwen), None),
        (Model::Qwen, Some("q1".to_string()))
    );
    assert_eq!(choose(Some(Model::Kimi), None), (Model::Kimi, None));
    assert_eq!(
        choose(None, Some("x")),
        (Model::Qwen, Some("x".to_string()))
    );
    assert_eq!(
        resume_choice("gone", "q".to_string(), None, None)
            .unwrap_err()
            .message,
        "session references an unsupported model"
    );
    assert!(check_workspace("/a", None).is_ok());
    assert!(check_workspace("/a", Some("/a")).is_ok());
    assert!(check_workspace("/a", Some("/a/")).is_ok());
    assert_eq!(
        check_workspace("/a", Some("/b")).unwrap_err().message,
        "session workspace is /a; explicit workspace is /b"
    );
}
