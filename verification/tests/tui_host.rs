use noya::agent::control::{ApprovalDecision, ApprovalRequest};
use noya::agent::event::AgentEvent;
use noya::error::Error;
use noya::model::{CredentialStore, EnvironmentKeys, Model, ModelStatus};
use noya::session::model::{
    SessionId, SessionStatus, SessionSummary, Transcript, TranscriptItem, TranscriptKind, TurnId,
};
use noya::skills::{SkillInfo, SkillSource};
use noya::session::model::ActiveSkillRecord;
use noya::tui::app::{AgentState, App, AppInfo, AppMode, MessageKind, TuiAction};
use noya::tui::host::{
    agent_state_for_worker, ensure_worker_capacity, on_answered, on_busy_command, on_idle_action,
    on_submitted, worker_limit, worker_status_label, AgentCommand, BusyStep, Effect, HostEvent,
    IdleStep, SwitchStep, WorkerStatus, Workers,
};
use noya::tui::listing::{
    model_choices, model_choices_with_catalog, project_summaries, render_project_list,
    render_session_list, render_skill, render_skill_list, resolve_project_target, ProjectTarget,
};
use noya::tui::reports::{
    activation_reports, catalog_fallback, compaction_reports, configuration_reports,
    configured_text, creation_reports, deactivation_reports, plan_switch, plan_switch_to,
    renaming_reports, reset_reports, resumption_reports, skill_reports, switch_reports,
    switched_text, turn_reports, Report, SwitchPlan,
};

fn error(message: &str) -> Error {
    Error {
        message: message.to_string(),
    }
}

fn app() -> App {
    App::new(AppInfo {
        workspace: "/a".to_string(),
        model: "qwen".to_string(),
        model_id: "qwen3-coder-plus".to_string(),
    })
}

fn summary(id: u128, workspace: &str, updated_at: i128) -> SessionSummary {
    SessionSummary {
        schema_version: 1,
        session_id: SessionId(id),
        title: format!("title {}", id),
        workspace: workspace.to_string(),
        model: "qwen".to_string(),
        model_id: "qwen3-coder-plus".to_string(),
        created_at: 0,
        updated_at,
        status: SessionStatus::Idle,
        last_seq: 1,
        completed_turns: 7,
        context_epoch: 0,
        compaction_through_seq: None,
        parent_session_id: None,
        active_branch_id: None,
        active_head_seq: 1,
        branch_count: 1,
        archived: false,
        active_skills: Vec::new(),
    }
}

fn request(id: &str) -> ApprovalRequest {
    ApprovalRequest {
        request_id: id.to_string(),
        call_id: "call".to_string(),
        tool_name: "run_command".to_string(),
        arguments: "{}".to_string(),
    }
}

fn asks(id: &str) -> HostEvent {
    HostEvent::Agent(AgentEvent::ApprovalRequired {
        turn_id: TurnId(1),
        request_id: id.to_string(),
        call_id: "call".to_string(),
        tool_name: "run_command".to_string(),
        arguments: "{}".to_string(),
    })
}

fn transcript() -> Transcript {
    Transcript {
        items: vec![TranscriptItem {
            id: 5,
            turn_id: None,
            kind: TranscriptKind::Agent,
            content: "earlier".to_string(),
            tool_call_id: None,
            interrupted: false,
        }],
    }
}

#[test]
fn workers_are_limited() {
    assert_eq!(worker_limit(0), 4);
    assert_eq!(worker_limit(2), 2);
    assert!(ensure_worker_capacity(1, 2).is_ok());
    assert!(ensure_worker_capacity(0, 0).is_ok());
    assert_eq!(
        ensure_worker_capacity(2, 2).unwrap_err().message,
        "Worker limit reached (2)"
    );
    assert_eq!(
        ensure_worker_capacity(1, 0).unwrap_err().message,
        "Worker limit reached (1)"
    );
    assert_eq!(agent_state_for_worker(None), AgentState::Error);
    assert_eq!(
        agent_state_for_worker(Some(WorkerStatus::Running)),
        AgentState::Thinking
    );
    assert_eq!(
        worker_status_label(WorkerStatus::WaitingApproval),
        "waiting approval"
    );
}

#[test]
fn actions_are_sent_or_done_at_once() {
    let mut app = app();
    let mut workers = Workers::new("/a".to_string());
    assert!(matches!(
        workers.apply_action(TuiAction::Nothing, &mut app),
        Effect::Nothing
    ));
    assert!(matches!(
        workers.apply_action(TuiAction::Clear, &mut app),
        Effect::Clear
    ));
    assert!(matches!(
        workers.apply_action(TuiAction::Submit("x".to_string()), &mut app),
        Effect::Send(TuiAction::Submit(text)) if text == "x"
    ));
    assert!(matches!(
        workers.apply_action(TuiAction::Cancel, &mut app),
        Effect::Send(TuiAction::Cancel)
    ));
    assert_eq!(
        app.status_message.as_deref(),
        Some("Cancelling current turn…")
    );
    assert!(matches!(
        workers.apply_action(TuiAction::ListProjects, &mut app),
        Effect::ListProjects
    ));
    assert!(matches!(
        workers.apply_action(TuiAction::SwitchProject("1".to_string()), &mut app),
        Effect::SwitchProject(target) if target == "1"
    ));
    workers.apply_action(TuiAction::Quit, &mut app);
    assert!(app.should_quit);
}

#[test]
fn a_decision_answers_the_request_that_is_shown() {
    let mut app = app();
    let mut workers = Workers::new("/a".to_string());
    let decide = || TuiAction::Approval(ApprovalDecision::Approve);
    assert!(matches!(
        workers.apply_action(decide(), &mut app),
        Effect::Nothing
    ));
    assert_eq!(
        app.status_message.as_deref(),
        Some("Approval request is not ready yet.")
    );
    workers.on_host_event(&mut app, "/a", asks("one"), 1);
    assert!(workers.on_request(&mut app, "/a", request("two")));
    assert!(matches!(
        workers.apply_action(decide(), &mut app),
        Effect::Nothing
    ));
    assert_eq!(
        app.status_message.as_deref(),
        Some("Approval request changed; please retry.")
    );
    assert!(workers.on_request(&mut app, "/a", request("one")));
    assert!(matches!(
        workers.apply_action(decide(), &mut app),
        Effect::Answer(ApprovalDecision::Approve)
    ));
    assert_eq!(workers.open_request, None);
    on_answered(&mut app, false);
    assert_eq!(
        app.status_message.as_deref(),
        Some("Approval request expired.")
    );
    assert!(app.pending_approval.is_some());
    on_answered(&mut app, true);
    assert!(app.pending_approval.is_none());
    assert_eq!(app.mode, AppMode::Normal);
    assert_eq!(app.agent_state, AgentState::Thinking);
}

#[test]
fn a_lost_host_is_an_error() {
    let mut app = app();
    on_submitted(&mut app, true, 1);
    assert!(app.messages.is_empty());
    on_submitted(&mut app, false, 1);
    assert_eq!(app.messages[0].content, "Error: Agent host is unavailable");
    assert_eq!(app.agent_state, AgentState::Error);
}

#[test]
fn commands_during_a_turn_are_refused_but_for_some() {
    assert_eq!(
        on_busy_command(&AgentCommand::Do(TuiAction::Cancel)),
        BusyStep::CancelTurn
    );
    assert_eq!(on_busy_command(&AgentCommand::Shutdown), BusyStep::Stop);
    assert_eq!(
        on_busy_command(&AgentCommand::Do(TuiAction::ListSessions)),
        BusyStep::ListSessions
    );
    assert_eq!(
        on_busy_command(&AgentCommand::Do(TuiAction::ListModels)),
        BusyStep::ListModels
    );
    assert_eq!(
        on_busy_command(&AgentCommand::Do(TuiAction::Reset)),
        BusyStep::Refuse
    );
    assert_eq!(
        on_busy_command(&AgentCommand::CatalogDiscovered {
            provider: Model::Qwen,
            base_url: "u".to_string(),
            model_ids: Vec::new()
        }),
        BusyStep::Defer
    );
    assert!(matches!(
        on_idle_action(TuiAction::Retry, Some("again".to_string())),
        IdleStep::Resubmit(input) if input == "again"
    ));
    assert!(matches!(
        on_idle_action(TuiAction::Retry, None),
        IdleStep::NothingToRetry
    ));
    assert!(matches!(
        on_idle_action(TuiAction::Cancel, None),
        IdleStep::Ignore
    ));
    assert!(matches!(
        on_idle_action(TuiAction::Compact, None),
        IdleStep::Act(TuiAction::Compact)
    ));
}

#[test]
fn reports_of_the_shown_worker_reach_the_interface() {
    let mut app = app();
    let mut workers = Workers::new("/a".to_string());
    workers.on_host_event(
        &mut app,
        "/a",
        HostEvent::Agent(AgentEvent::TurnStarted { turn_id: TurnId(1) }),
        1,
    );
    assert_eq!(workers.status("/a"), Some(WorkerStatus::Running));
    assert_eq!(app.agent_state, AgentState::Thinking);
    workers.on_host_event(&mut app, "/a", asks("r"), 2);
    assert_eq!(workers.status("/a"), Some(WorkerStatus::WaitingApproval));
    workers.on_request(&mut app, "/a", request("r"));
    workers.on_host_event(
        &mut app,
        "/a",
        HostEvent::Agent(AgentEvent::TurnCompleted { turn_id: TurnId(1) }),
        3,
    );
    assert_eq!(workers.open_request, None);
    assert_eq!(workers.status("/a"), Some(WorkerStatus::Idle));
    workers.on_host_event(
        &mut app,
        "/a",
        HostEvent::SessionChanged {
            summary: summary(1, "/a", 0),
            transcript: transcript(),
            context_tokens: 9,
        },
        4,
    );
    assert_eq!(app.messages.len(), 2);
    assert_eq!(app.messages[0].content, "earlier");
    assert_eq!(app.messages[1].content, "Session ready.");
    assert_eq!(app.context_tokens, 9);
    workers.on_host_event(
        &mut app,
        "/a",
        HostEvent::SessionUpdated {
            summary: summary(1, "/a", 0),
            context_tokens: 10,
        },
        5,
    );
    assert_eq!(app.context_tokens, 10);
    workers.on_host_event(&mut app, "/a", HostEvent::SessionList(Vec::new()), 6);
    assert_eq!(
        app.messages[2].content,
        "No sessions found for this workspace."
    );
    workers.on_host_event(
        &mut app,
        "/a",
        HostEvent::RetrySubmitted("again".to_string()),
        7,
    );
    assert_eq!(app.messages[3].kind, MessageKind::User);
    assert_eq!(app.agent_state, AgentState::Thinking);
    workers.on_host_event(&mut app, "/a", HostEvent::Notice("done".to_string()), 8);
    assert_eq!(app.agent_state, AgentState::Idle);
    workers.on_host_event(
        &mut app,
        "/a",
        HostEvent::ModelSetupRequired {
            model: Model::Kimi,
            base_url: "u".to_string(),
        },
        9,
    );
    assert_eq!(app.mode, AppMode::ConfiguringModel);
    workers.on_host_event(
        &mut app,
        "/a",
        HostEvent::CommandFailed("no".to_string()),
        10,
    );
    assert_eq!(app.mode, AppMode::Normal);
    assert_eq!(app.messages.last().unwrap().kind, MessageKind::Error);
    workers.on_host_event(
        &mut app,
        "/a",
        HostEvent::Agent(AgentEvent::Error {
            turn_id: None,
            message: "gone".to_string(),
            recoverable: false,
        }),
        11,
    );
    assert_eq!(workers.status("/a"), Some(WorkerStatus::Error));
}

#[test]
fn reports_from_the_background_are_only_counted() {
    let mut app = app();
    let mut workers = Workers::new("/a".to_string());
    workers.worker_started("/b".to_string());
    workers.on_host_event(
        &mut app,
        "/b",
        HostEvent::Agent(AgentEvent::TurnStarted { turn_id: TurnId(1) }),
        1,
    );
    assert_eq!(app.background_notifications, 0);
    workers.on_host_event(&mut app, "/b", HostEvent::Notice("x".to_string()), 2);
    workers.on_host_event(
        &mut app,
        "/b",
        HostEvent::Agent(AgentEvent::TurnCompleted { turn_id: TurnId(1) }),
        3,
    );
    assert_eq!(app.background_notifications, 2);
    assert!(app.messages.is_empty());
    assert_eq!(app.agent_state, AgentState::Idle);
    assert_eq!(workers.status("/a"), Some(WorkerStatus::Idle));
    assert!(!workers.on_request(&mut app, "/b", request("r")));
    assert_eq!(app.background_notifications, 3);
    assert_eq!(workers.waiting.len(), 1);
    assert_eq!(workers.open_request, None);
}

#[test]
fn an_open_request_waits_until_the_user_comes_back() {
    let mut app = app();
    let mut workers = Workers::new("/a".to_string());
    workers.on_host_event(&mut app, "/a", asks("r"), 1);
    workers.on_request(&mut app, "/a", request("r"));
    let start = workers.start_switch(&mut app, "/b", 1);
    assert!(start.parked);
    assert_eq!(
        start.step.unwrap_err().message,
        "Worker limit reached (1)"
    );
    let start = workers.start_switch(&mut app, "/b", 2);
    assert!(!start.parked);
    assert_eq!(start.step.unwrap(), SwitchStep::StartWorker);
    workers.worker_started("/b".to_string());
    assert!(!workers.finish_switch(
        &mut app,
        "/b".to_string(),
        &summary(2, "/b", 0),
        &transcript(),
        (10, 11),
        TurnId(3)
    ));
    assert_eq!(workers.active, "/b");
    assert!(app.pending_approval.is_none());
    assert_eq!(app.agent_state, AgentState::Idle);
    assert_eq!(
        app.messages.last().unwrap().content,
        "Switched to project: /b"
    );
    let start = workers.start_switch(&mut app, "/a", 2);
    assert_eq!(start.step.unwrap(), SwitchStep::Open);
    assert!(workers.finish_switch(
        &mut app,
        "/a".to_string(),
        &summary(1, "/a", 0),
        &transcript(),
        (12, 13),
        TurnId(4)
    ));
    assert_eq!(workers.open_request.as_deref(), Some("r"));
    assert_eq!(app.pending_approval.as_ref().unwrap().request_id, "r");
    assert_eq!(app.mode, AppMode::Confirming);
    assert_eq!(app.agent_state, AgentState::WaitingApproval);
    assert!(workers.waiting.is_empty());
    let start = workers.start_switch(&mut app, "/a", 2);
    assert_eq!(start.step.unwrap(), SwitchStep::Stay);
}

#[test]
fn model_choices_include_all_models_and_mark_current() {
    let choices = model_choices(
        &[
            ModelStatus {
                model: Model::DeepSeek,
                logged_in: true,
                active: true,
            },
            ModelStatus {
                model: Model::Qwen,
                logged_in: true,
                active: false,
            },
            ModelStatus {
                model: Model::Kimi,
                logged_in: false,
                active: false,
            },
        ],
        "qwen",
        "qwen-custom",
    );

    assert_eq!(choices.len(), 3);
    assert_eq!(choices[0].model, "deepseek");
    assert!(!choices[0].current);
    assert_eq!(choices[1].model, "qwen");
    assert_eq!(choices[1].model_id, "qwen-custom");
    assert!(choices[1].current);
    assert_eq!(choices[2].model, "kimi");
}

#[test]
fn model_choices_include_the_current_model_without_a_saved_credential() {
    let choices = model_choices(
        &[
            ModelStatus {
                model: Model::OpenAi,
                logged_in: false,
                active: false,
            },
            ModelStatus {
                model: Model::DeepSeek,
                logged_in: false,
                active: false,
            },
        ],
        "openai",
        "gpt-4o",
    );

    assert_eq!(choices.len(), 2);
    assert_eq!(choices[0].model, "openai");
    assert_eq!(choices[0].model_id, "gpt-4o");
    assert!(choices[0].current);
    assert_eq!(choices[1].model, "deepseek");
}

#[test]
fn listed_models_are_offered_where_they_can_be_used() {
    let statuses = [
        ModelStatus {
            model: Model::OpenAi,
            logged_in: true,
            active: true,
        },
        ModelStatus {
            model: Model::Qwen,
            logged_in: false,
            active: false,
        },
        ModelStatus {
            model: Model::Kimi,
            logged_in: true,
            active: false,
        },
    ];
    let catalogs = vec![
        vec!["gpt-4o".to_string(), "gpt-5".to_string()],
        vec!["hidden".to_string()],
        Vec::new(),
    ];
    let choices = model_choices_with_catalog(&statuses, &catalogs, "openai", "gpt-5");
    let shown = choices
        .iter()
        .map(|choice| format!("{}/{}/{}", choice.model, choice.model_id, choice.current))
        .collect::<Vec<_>>();
    assert_eq!(
        shown,
        vec![
            "openai/gpt-4o/false",
            "openai/gpt-5/true",
            "qwen/qwen3-coder-plus/false",
            "kimi/kimi-k3/false"
        ]
    );
}

#[test]
fn project_history_deduplicates_workspaces() {
    let projects = project_summaries(&vec![
        summary(1, "/first", 1),
        summary(2, "/second", 2),
        summary(3, "/first", 3),
        summary(4, "/second", 1),
    ]);
    assert_eq!(projects.len(), 2);
    assert_ne!(projects[0].workspace, projects[1].workspace);
    assert_eq!(projects[0].session_id, SessionId(3));
    assert_eq!(projects[1].session_id, SessionId(2));
    let many = (0..15)
        .map(|n| summary(n, &format!("/p{}", n), n as i128))
        .collect::<Vec<_>>();
    let projects = project_summaries(&many);
    assert_eq!(projects.len(), 10);
    assert_eq!(projects[0].workspace, "/p14");
}

#[test]
fn projects_are_listed_with_their_workers() {
    let mut workers = Workers::new("/a".to_string());
    workers.worker_started("/b".to_string());
    let list = vec![summary(1, "/a", 3), summary(2, "/b", 2), summary(3, "/c", 1)];
    assert_eq!(
        render_project_list(Ok(list), &workers),
        "Projects:\n*  1. [idle            ] /a\n   2. [idle            ] /b\n   3. [stopped         ] /c\nUse /project <index|path> to switch."
    );
    assert_eq!(
        render_project_list(Ok(Vec::new()), &workers),
        "No projects found."
    );
    assert_eq!(
        render_project_list(Err(error("disk")), &workers),
        "Failed to list projects: disk"
    );
}

#[test]
fn projects_are_found_by_number_or_path() {
    let list = vec![summary(1, "/a", 3), summary(2, "/b", 2)];
    let home = || Some("/home/u".to_string());
    assert_eq!(
        resolve_project_target("2", &list, home()).unwrap(),
        ProjectTarget::Listed("/b".to_string())
    );
    assert_eq!(
        resolve_project_target("0", &list, home()).unwrap_err().message,
        "project index starts at 1"
    );
    assert_eq!(
        resolve_project_target("3", &list, home()).unwrap_err().message,
        "project index 3 is not available"
    );
    assert_eq!(
        resolve_project_target("~/x", &list, home()).unwrap(),
        ProjectTarget::Path("/home/u/x".to_string())
    );
    assert_eq!(
        resolve_project_target("~/x", &list, None).unwrap_err().message,
        "cannot determine the user home directory"
    );
    assert_eq!(
        resolve_project_target("../x", &list, None).unwrap(),
        ProjectTarget::Path("../x".to_string())
    );
}

#[test]
fn sessions_are_listed_with_their_turns() {
    assert_eq!(
        render_session_list(&vec![summary(255, "/a", 0)]),
        "Sessions:\n00000000-000    7 turns  title 255"
    );
}

fn skill(name: &str) -> SkillInfo {
    SkillInfo {
        name: name.to_string(),
        description: "does it".to_string(),
        source: SkillSource::Project,
        path: "/s/SKILL.md".to_string(),
        digest: "abc".to_string(),
        disable_model_invocation: false,
    }
}

#[test]
fn skills_are_listed_and_shown() {
    let active = vec![ActiveSkillRecord {
        name: "on".to_string(),
        digest: "abc".to_string(),
        source: "project".to_string(),
        order: 0,
    }];
    assert_eq!(
        render_skill_list(
            &vec![skill("on"), skill("off")],
            &active,
            &vec!["bad one".to_string()]
        ),
        "* on                       [project] does it\n  off                      [project] does it\n\nWarnings:\nbad one"
    );
    assert_eq!(
        render_skill_list(&Vec::new(), &active, &Vec::new()),
        "No valid Skills discovered."
    );
    assert_eq!(
        render_skill(&skill("on"), true),
        "Skill: on\nDescription: does it\nSource: project\nPath: /s/SKILL.md\nDigest: abc\nModel invocation disabled: false\nActive: true"
    );
}

#[test]
fn outcomes_are_reported() {
    let failed = |text: &str| Report::Failed(text.to_string());
    let notice = |text: &str| Report::Notice(text.to_string());
    let command = |text: &str| Report::CommandFailed(text.to_string());
    assert_eq!(
        turn_reports(Ok(()), Ok(false)),
        vec![Report::SessionUpdated]
    );
    assert_eq!(
        turn_reports(Err(error("e")), Ok(true)),
        vec![
            failed("e"),
            notice("Session context was compacted automatically."),
            Report::SessionUpdated
        ]
    );
    assert_eq!(
        turn_reports(Ok(()), Err(error("e"))),
        vec![
            failed("Automatic compaction failed: e"),
            Report::SessionUpdated
        ]
    );
    assert_eq!(
        reset_reports(Ok(())),
        vec![notice("Context reset."), Report::SessionUpdated]
    );
    assert_eq!(
        reset_reports(Err(error("e"))),
        vec![failed("Failed to reset context: e")]
    );
    assert_eq!(creation_reports(Ok(())), vec![Report::SessionChanged]);
    assert_eq!(
        creation_reports(Err(error("e"))),
        vec![failed("Failed to create session: e")]
    );
    assert_eq!(resumption_reports(Ok(())), vec![Report::SessionChanged]);
    assert_eq!(
        resumption_reports(Err(error("e"))),
        vec![failed("Failed to resume session: e")]
    );
    assert_eq!(
        renaming_reports(Ok(())),
        vec![Report::SessionUpdated, notice("Session renamed.")]
    );
    assert_eq!(
        renaming_reports(Err(error("e"))),
        vec![failed("Failed to rename session: e")]
    );
    assert_eq!(compaction_reports(Ok(true)).len(), 2);
    assert_eq!(
        compaction_reports(Ok(false)),
        vec![notice(
            "Nothing to compact; at least four recent completed turns are always retained."
        )]
    );
    assert_eq!(
        compaction_reports(Err(error("e"))),
        vec![failed("Failed to compact session: e")]
    );
    assert_eq!(
        activation_reports("s", Ok(skill("s"))),
        vec![
            notice("Activated Skill 's' (project, abc)."),
            Report::SessionUpdated
        ]
    );
    assert_eq!(
        activation_reports("s", Err(error("e"))),
        vec![failed("Failed to activate Skill 's': e")]
    );
    assert_eq!(
        deactivation_reports("s", Ok(())),
        vec![notice("Deactivated Skill 's'."), Report::SessionUpdated]
    );
    assert_eq!(
        deactivation_reports("s", Err(error("e"))),
        vec![failed("Failed to deactivate Skill 's': e")]
    );
    assert_eq!(
        skill_reports("s", Err(error("e")), false),
        vec![failed("Failed to show Skill 's': e")]
    );
    assert_eq!(
        switch_reports(Err(error("e"))),
        vec![command("Failed to switch model: e")]
    );
    assert_eq!(
        configuration_reports(Err(error("e"))),
        vec![command("Failed to configure model: e")]
    );
    assert_eq!(
        switch_reports(Ok(switched_text(Model::Qwen, "q"))),
        vec![
            Report::SessionUpdated,
            notice("Switched this session to qwen (q).")
        ]
    );
    assert_eq!(
        configuration_reports(Ok(configured_text(Model::Kimi, "k"))),
        vec![
            Report::SessionUpdated,
            notice("Configured and switched to kimi (k).")
        ]
    );
}

#[test]
fn switching_models_is_planned() {
    let mut store = CredentialStore::at("/c.json".to_string());
    let none = EnvironmentKeys::default;
    assert!(matches!(
        plan_switch("nope", "qwen", "q", &store, none()),
        SwitchPlan::Refuse(error)
            if error.message == "unsupported model 'nope'; supported models: openai, deepseek, qwen, kimi"
    ));
    assert!(matches!(
        plan_switch("kimi", "qwen", "q", &store, none()),
        SwitchPlan::SetUp { model: Model::Kimi, base_url } if base_url == "https://api.moonshot.cn/v1"
    ));
    assert_eq!(
        plan_switch_to("kimi", "k9".to_string(), &store, none())
            .unwrap_err()
            .message,
        "no API credential configured for kimi"
    );
    store.login(Model::Kimi, "key", None).unwrap();
    assert!(matches!(
        plan_switch("kimi", "kimi", "k1", &store, none()),
        SwitchPlan::Keep(text) if text == "Already using kimi (k1)."
    ));
    assert!(matches!(
        plan_switch("kimi", "qwen", "q", &store, none()),
        SwitchPlan::Use(config) if config.model_id == "kimi-k3" && config.api_key == "key"
    ));
    let config = plan_switch_to("kimi", "k9".to_string(), &store, none()).unwrap();
    assert_eq!(config.model_id, "k9");
    assert_eq!(
        plan_switch_to("zzz", "k9".to_string(), &store, none())
            .unwrap_err()
            .message,
        "unsupported model 'zzz'; supported models: openai, deepseek, qwen, kimi"
    );
}

#[test]
fn a_session_falls_back_to_a_listed_model() {
    let ids = vec!["a".to_string(), "kimi-k3".to_string()];
    assert_eq!(
        catalog_fallback(Model::Kimi, "qwen", "x", &ids).unwrap(),
        None
    );
    assert_eq!(
        catalog_fallback(Model::Kimi, "kimi", "a", &ids).unwrap(),
        None
    );
    assert_eq!(
        catalog_fallback(Model::Kimi, "kimi", "x", &ids).unwrap(),
        Some("kimi-k3".to_string())
    );
    assert_eq!(
        catalog_fallback(Model::Kimi, "kimi", "x", &vec!["b".to_string()]).unwrap(),
        Some("b".to_string())
    );
    assert_eq!(
        catalog_fallback(Model::Kimi, "kimi", "x", &Vec::new())
            .unwrap_err()
            .message,
        "discovered model catalog is empty"
    );
}

#[test]
fn a_long_session_shows_its_latest_messages() {
    let mut app = app();
    let items = (0..203)
        .map(|index| TranscriptItem {
            id: 100 + index,
            turn_id: None,
            kind: TranscriptKind::Agent,
            content: format!("answer {index}"),
            tool_call_id: None,
            interrupted: false,
        })
        .collect();
    app.load_session(&summary(1, "/a", 0), &Transcript { items }, 7);
    assert_eq!(app.messages.len(), 201);
    assert_eq!(app.messages[0].content, "3 earlier messages are not shown.");
    assert_eq!(app.messages[1].content, "answer 3");
    assert_eq!(app.messages[200].content, "answer 202");
    app.load_session(&summary(1, "/a", 0), &transcript(), 7);
    assert_eq!(app.messages.len(), 1);
}
