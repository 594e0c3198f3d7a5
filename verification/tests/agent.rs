use noya::agent::autonomous::{
    parse_list, truncate_output, AutonomousConfig, EnvironmentValues, GateOutcome, GateRunner,
    GateStep, QualityGateConfig,
};
use noya::agent::control::{settle, ApprovalDecision};
use noya::agent::diagnostics::{AgentDiagnostics, TurnDiagnostics};
use noya::agent::event::AgentEvent;
use noya::agent::prompt::{build, Document, SkillPrompt};
use noya::agent::result::{error_result, limit_tool_result, tell, withheld, ToolRun};
use noya::agent::runtime::{Agent, AgentConfig};
use noya::agent::turn::{
    auto_compact_enabled, check_setup, compaction_request, conclude_turn, CallStep, Progress,
    TurnRun, FINAL_RESPONSE_INSTRUCTION, TOOL_LIMIT_FALLBACK,
};
use noya::error::Error;
use noya::ids::TurnId;
use noya::llm::protocol::{CalledFunction, ChatMessage, ChatStreamResponse, ToolCall, Usage};
use noya::session::durable::Session;
use noya::session::event::EventEnvelope;
use noya::session::manager::SessionManager;
use noya::session::model::CreateSession;
use noya::skills::{SkillFile, SkillRegistry, SkillSource};
use noya::tools::{ToolApprovalMode, ToolPolicy, ToolRegistry};

trait Written {
    fn take_unsaved(&mut self) -> Vec<EventEnvelope>;
}

impl Written for Session {
    fn take_unsaved(&mut self) -> Vec<EventEnvelope> {
        let mut events = Vec::new();
        while let Some(event) = self.take_next() {
            self.confirm();
            events.push(event);
        }
        events
    }
}

fn config(max_tool_loops: usize) -> AgentConfig {
    AgentConfig {
        workspace: "/repo".to_string(),
        max_tool_loops,
        tool_timeout_nanos: 120_000_000_000,
        max_tool_output_bytes: 32_768,
        temperature_bits: 0.2f32.to_bits(),
    }
}

fn session() -> Session {
    SessionManager::at("/data".to_string())
        .create(CreateSession {
            workspace: "/repo".to_string(),
            model: "deepseek".to_string(),
            model_id: "deepseek-v4-flash".to_string(),
        })
        .unwrap()
}

fn skills() -> SkillRegistry {
    let text = "---\nname: demo\ndescription: A demo skill\n---\n\nDo the thing.\n";
    let mut registry = SkillRegistry::default();
    registry.consider(
        "/skills",
        "/skills/demo",
        "demo",
        SkillFile::Found {
            path: "/skills/demo/SKILL.md".to_string(),
            is_file: true,
            bytes: Ok(text.len() as u64),
            text: Ok(text.to_string()),
        },
        SkillSource::Project,
    );
    registry
}

fn agent(max_tool_loops: usize) -> Agent {
    Agent::with_session_for_model(
        config(max_tool_loops),
        "0.3.0".to_string(),
        ToolRegistry::coding_defaults(),
        skills(),
        &Vec::new(),
        session(),
        "deepseek",
        "deepseek-v4-flash".to_string(),
    )
    .unwrap()
}

fn text(content: &str) -> ChatStreamResponse {
    ChatStreamResponse {
        content: content.to_string(),
        reasoning_content: None,
        tool_calls: Vec::new(),
        usage: None,
    }
}

fn calls(id: &str, name: &str, arguments: &str) -> ChatStreamResponse {
    ChatStreamResponse {
        content: String::new(),
        reasoning_content: None,
        tool_calls: vec![ToolCall {
            id: id.to_string(),
            call_type: "function".to_string(),
            function: CalledFunction {
                name: name.to_string(),
                arguments: arguments.to_string(),
            },
        }],
        usage: None,
    }
}

/// Runs a turn against a model that answers with `answer`, which is told how
/// many answers were given and whether tools were offered.
fn run(
    session: &mut Session,
    tools: &ToolRegistry,
    max_tool_loops: usize,
    input: &str,
    decision: ApprovalDecision,
    answer: impl Fn(usize, bool) -> ChatStreamResponse,
) -> (Result<(), Error>, Vec<AgentEvent>, usize) {
    let mut events = Vec::new();
    let turn_id = session.begin_turn(input.to_string()).unwrap();
    events.push(AgentEvent::TurnStarted { turn_id });
    let mut turn = TurnRun::new(turn_id, max_tool_loops);
    let mut asked = 0;
    loop {
        let request = turn.request("system prompt", session);
        assert_eq!(request[0].role, "system");
        assert_eq!(
            request[0].content.contains(FINAL_RESPONSE_INSTRUCTION),
            !turn.offers_tools()
        );
        let response = answer(asked, turn.offers_tools());
        let message_id = asked as u128;
        asked += 1;
        turn.await_answer();
        for piece in response.content.split_inclusive("l") {
            turn.on_text(message_id, piece.to_string(), &mut events);
        }
        assert_eq!(turn.streamed(), response.content);
        let progress = turn
            .on_response(session, response, message_id, &mut events)
            .unwrap();
        if progress == Progress::Finished {
            break;
        }
        loop {
            match turn
                .next_call(tools, "request".to_string(), &mut events)
                .unwrap()
            {
                CallStep::NoneLeft => break,
                CallStep::Ask(_) => {
                    if !turn
                        .on_decision(session, decision.clone(), &mut events)
                        .unwrap()
                    {
                        continue;
                    }
                }
                CallStep::Proceed => {}
            }
            let order = turn.start_call(session, &mut events).unwrap();
            let done = match withheld(tools, &order.name) {
                Some(run) => run,
                None => ToolRun::Done("{\"ok\":true}".to_string()),
            };
            let (result, success) = tell(done, 32_768);
            turn.finish_call(session, result, success, 1, &mut events)
                .unwrap();
        }
    }
    let result = conclude_turn(session, turn_id, Ok(()), false, &mut events);
    (result, events, asked)
}

fn never() -> ToolRegistry {
    ToolRegistry::coding_defaults().with_policy(ToolPolicy {
        approval_mode: ToolApprovalMode::Never,
        blocked_tools: Vec::new(),
    })
}

fn started(events: &[AgentEvent]) -> usize {
    events
        .iter()
        .filter(|event| matches!(event, AgentEvent::ToolStarted { .. }))
        .count()
}

#[test]
fn agent_config_is_workspace_scoped() {
    let c = AgentConfig {
        workspace: "repo".to_string(),
        max_tool_loops: 8,
        tool_timeout_nanos: 120_000_000_000,
        max_tool_output_bytes: 32_768,
        temperature_bits: 0.2f32.to_bits(),
    };
    assert_eq!(c.workspace, "repo");
}

#[test]
fn model_switch_replaces_the_client_and_persists_session_metadata() {
    let mut agent = agent(4);
    agent
        .switch_model("qwen", "qwen3-coder-plus".to_string())
        .unwrap();

    let summary = agent.session().summary();
    assert_eq!(summary.model, "qwen");
    assert_eq!(summary.model_id, "qwen3-coder-plus");
    let id = *agent.session().id();
    let events = agent.session_mut().take_unsaved();

    let reopened = Session::open(id, &events, None).unwrap();
    assert_eq!(reopened.summary().model, "qwen");
    assert_eq!(reopened.summary().model_id, "qwen3-coder-plus");
}

#[test]
fn turn_emits_streaming_text_in_order() {
    let mut session = session();
    let (result, events, _) = run(
        &mut session,
        &ToolRegistry::coding_defaults(),
        4,
        "hello",
        ApprovalDecision::Reject,
        |_, _| text("Hello"),
    );
    result.unwrap();

    assert_eq!(events.len(), 6);
    let turn_id = match events[0] {
        AgentEvent::TurnStarted { turn_id } => turn_id,
        _ => panic!("unexpected event"),
    };
    for (index, expected) in [(1, "Hel"), (2, "l"), (3, "o")] {
        assert!(matches!(
            &events[index],
            AgentEvent::TextDelta {
                turn_id: delta_turn,
                message_id: 0,
                chunk,
                is_final: false,
            } if *delta_turn == turn_id && chunk == expected
        ));
    }
    assert!(matches!(
        &events[4],
        AgentEvent::TextDelta {
            turn_id: delta_turn,
            message_id: 0,
            chunk,
            is_final: true,
        } if *delta_turn == turn_id && chunk.is_empty()
    ));
    assert!(matches!(
        events[5],
        AgentEvent::TurnCompleted { turn_id: completed } if completed == turn_id
    ));
}

#[test]
fn a_mutating_tool_runs_where_the_policy_never_asks() {
    let mut session = session();
    let (result, events, _) = run(
        &mut session,
        &never(),
        4,
        "write a note",
        ApprovalDecision::Reject,
        |call, _| {
            if call == 0 {
                calls(
                    "write-1",
                    "write_file",
                    "{\"path\":\"note.txt\",\"content\":\"hello\"}",
                )
            } else {
                text("Written.")
            }
        },
    );
    result.unwrap();
    assert!(!events
        .iter()
        .any(|event| matches!(event, AgentEvent::ApprovalRequired { .. })));
    assert!(events.iter().any(|event| matches!(
        event,
        AgentEvent::ToolFinished { call_id, success: true, .. } if call_id == "write-1"
    )));
}

#[test]
fn a_refused_tool_does_not_run() {
    let mut session = session();
    let (result, events, _) = run(
        &mut session,
        &ToolRegistry::coding_defaults(),
        4,
        "write a note",
        settle(false, Some(ApprovalDecision::Approve)),
        |call, _| {
            if call == 0 {
                calls("write-1", "write_file", "{}")
            } else {
                text("Not written.")
            }
        },
    );
    result.unwrap();
    assert_eq!(started(&events), 0);
    assert!(events.iter().any(|event| matches!(
        event,
        AgentEvent::ToolFinished { result, success: false, .. }
            if result == "{\"error\":\"tool execution rejected by user\"}"
    )));
}

#[test]
fn changed_arguments_are_used() {
    let mut session = session();
    let (result, events, _) = run(
        &mut session,
        &ToolRegistry::coding_defaults(),
        4,
        "run",
        settle(true, Some(ApprovalDecision::Modify("{\"command\":\"ls\"}".to_string()))),
        |call, _| {
            if call == 0 {
                calls("run-1", "run_command", "{ \"command\" : \"rm\" }")
            } else {
                text("Done.")
            }
        },
    );
    result.unwrap();
    assert!(events.iter().any(|event| matches!(
        event,
        AgentEvent::ApprovalRequired { arguments, .. } if arguments == "{\"command\":\"rm\"}"
    )));
    assert!(events.iter().any(|event| matches!(
        event,
        AgentEvent::ToolStarted { arguments, .. } if arguments == "{\"command\":\"ls\"}"
    )));
}

#[test]
fn a_blocked_tool_does_not_run() {
    let tools = ToolRegistry::coding_defaults().with_policy(ToolPolicy {
        approval_mode: ToolApprovalMode::Never,
        blocked_tools: vec!["run_command".to_string()],
    });
    assert!(withheld(&tools, "read_file").is_none());
    let blocked = withheld(&tools, "run_command").unwrap();
    assert_eq!(
        tell(blocked, 1_024),
        (
            "{\"error\":\"tool is blocked by policy: run_command\"}".to_string(),
            false
        )
    );
    let unknown = withheld(&tools, "none").unwrap();
    assert_eq!(
        tell(unknown, 1_024),
        ("{\"error\":\"unknown tool: none\"}".to_string(), false)
    );
}

#[test]
fn completed_agent_turn_is_durable_and_reopens_with_tool_context() {
    let mut session = session();
    let (result, _, _) = run(
        &mut session,
        &never(),
        4,
        "write a note",
        ApprovalDecision::Reject,
        |call, _| {
            if call == 0 {
                calls(
                    "write-1",
                    "write_file",
                    "{\"path\":\"note.txt\",\"content\":\"hello\"}",
                )
            } else {
                text("Written.")
            }
        },
    );
    result.unwrap();
    let id = *session.id();
    let events = session.take_unsaved();

    let reopened = Session::open(id, &events, None).unwrap();
    let context = reopened.context().messages;
    assert_eq!(context.len(), 4);
    assert_eq!(context[0].role, "user");
    assert_eq!(context[1].tool_calls.as_ref().unwrap()[0].id, "write-1");
    assert_eq!(context[2].tool_call_id.as_deref(), Some("write-1"));
    assert_eq!(context[3].content, "Written.");
}

#[test]
fn turn_can_be_cancelled_while_waiting_for_llm() {
    let mut session = session();
    let turn_id = session.begin_turn("wait".to_string()).unwrap();
    let mut events = Vec::new();
    let error = conclude_turn(
        &mut session,
        turn_id,
        Err(Error {
            message: "turn cancelled".to_string(),
        }),
        true,
        &mut events,
    )
    .unwrap_err()
    .message;

    assert_eq!(error, "turn cancelled");
    assert!(events.is_empty());
    assert_eq!(session.retry_input().as_deref(), Some("wait"));
    assert!(session.context().messages.is_empty());
}

#[test]
fn a_turn_that_cannot_be_closed_is_another_failure() {
    let mut session = session();
    let mut events = Vec::new();
    let failed = || {
        Err(Error {
            message: "m".to_string(),
        })
    };
    assert_eq!(
        conclude_turn(&mut session, TurnId(1), failed(), true, &mut events)
            .unwrap_err()
            .message,
        "persist cancelled turn"
    );
    assert_eq!(
        conclude_turn(&mut session, TurnId(1), failed(), false, &mut events)
            .unwrap_err()
            .message,
        "persist failed turn"
    );
}

#[test]
fn turn_allows_a_final_response_after_reaching_the_tool_loop_limit() {
    let mut session = session();
    let (result, events, asked) = run(
        &mut session,
        &ToolRegistry::coding_defaults(),
        2,
        "inspect the workspace",
        ApprovalDecision::Reject,
        |call, _| {
            if call < 2 {
                calls(&format!("list-{call}"), "list_dir", "{}")
            } else {
                text("Finished.")
            }
        },
    );
    result.unwrap();
    assert_eq!(asked, 3);
    assert!(matches!(
        events.last(),
        Some(AgentEvent::TurnCompleted { .. })
    ));
}

#[test]
fn turn_forces_a_final_response_without_tools_at_the_tool_loop_limit() {
    let mut session = session();
    let (result, events, asked) = run(
        &mut session,
        &ToolRegistry::coding_defaults(),
        2,
        "keep inspecting",
        ApprovalDecision::Reject,
        |call, tools_available| {
            if tools_available {
                calls(&format!("list-{call}"), "list_dir", "{}")
            } else {
                text("Summarized without more tools.")
            }
        },
    );
    result.unwrap();
    assert_eq!(asked, 3);
    assert_eq!(started(&events), 2);
    let said: String = events
        .iter()
        .map(|event| match event {
            AgentEvent::TextDelta { chunk, .. } => chunk.as_str(),
            _ => "",
        })
        .collect();
    assert!(said.contains("Summarized without more tools"));
    assert!(matches!(
        events.last(),
        Some(AgentEvent::TurnCompleted { .. })
    ));
}

#[test]
fn tool_execution_times_out_and_returns_a_model_visible_error() {
    let (result, success) = tell(ToolRun::TimedOut(10), 1_024);
    let result: serde_json::Value = serde_json::from_str(&result).unwrap();

    assert!(!success);
    assert_eq!(result["timeout_ms"], 10);
    assert!(result["error"].as_str().unwrap().contains("timed out"));
}

#[test]
fn provider_tool_calls_after_the_limit_are_not_executed_or_returned_as_errors() {
    let mut session = session();
    let (result, events, asked) = run(
        &mut session,
        &ToolRegistry::coding_defaults(),
        1,
        "keep inspecting",
        ApprovalDecision::Reject,
        |call, _| calls(&format!("list-{call}"), "list_dir", "{}"),
    );
    result.unwrap();
    assert_eq!(asked, 2);
    assert_eq!(started(&events), 1);
    assert!(events.iter().any(|event| matches!(
        event,
        AgentEvent::TextDelta { chunk, .. } if chunk == TOOL_LIMIT_FALLBACK
    )));
    assert!(matches!(
        events.last(),
        Some(AgentEvent::TurnCompleted { .. })
    ));
}

#[test]
fn arguments_that_are_no_json_end_the_turn() {
    let mut session = session();
    let turn_id = session.begin_turn("go".to_string()).unwrap();
    let mut turn = TurnRun::new(turn_id, 4);
    let mut events = Vec::new();
    turn.on_response(&mut session, calls("c", "list_dir", "{"), 1, &mut events)
        .unwrap();
    assert_eq!(
        turn.next_call(
            &ToolRegistry::coding_defaults(),
            "r".to_string(),
            &mut events
        )
        .unwrap_err()
        .message,
        "decode tool arguments"
    );
}

#[test]
fn a_lost_draft_is_reported_once() {
    let mut turn = TurnRun::new(TurnId(1), 4);
    let mut events = Vec::new();
    turn.on_draft_failure("disk full", &mut events);
    turn.on_draft_failure("disk full", &mut events);
    assert_eq!(events.len(), 1);
    assert!(matches!(
        &events[0],
        AgentEvent::Error { message, recoverable: true, .. }
            if message == "crash recovery checkpoint unavailable: disk full"
    ));
}

#[test]
fn oversized_tool_results_are_replaced_with_a_bounded_preview() {
    let rendered = format!("{{\"stdout\":\"{}\"}}", "x".repeat(2_000));
    let serialized = limit_tool_result(rendered, 256);
    let result: serde_json::Value = serde_json::from_str(&serialized).unwrap();

    assert!(serialized.len() <= 256);
    assert_eq!(result["truncated"], true);
    assert!(result["original_bytes"].as_u64().unwrap() > 2_000);
    assert!(result["preview"].as_str().unwrap().contains("stdout"));
}

#[test]
fn a_short_result_is_left_alone() {
    assert_eq!(limit_tool_result("{}".to_string(), 256), "{}");
    let wide = limit_tool_result(format!("\"{}\"", "é".repeat(500)), 300);
    assert!(wide.len() <= 300);
    let quotes = limit_tool_result("\"".repeat(1_000), 256);
    assert!(quotes.len() <= 256);
}

#[test]
fn accumulates_turn_usage_and_tool_metrics() {
    let mut total = AgentDiagnostics::default();
    let mut turn = TurnDiagnostics {
        elapsed_ms: 120,
        tool_calls: 2,
        successful_tool_calls: 1,
        failed_tool_calls: 1,
        tool_duration_ms: 40,
        ..TurnDiagnostics::default()
    };
    turn.add_usage(
        Usage {
            input_tokens: 1_000,
            output_tokens: 500,
            total_tokens: 1_500,
            ..Usage::default()
        },
        false,
    );

    total.record_turn(&turn);
    assert_eq!(total.turns, 1);
    assert_eq!(total.tool_calls, 2);
    assert_eq!(total.usage.total_tokens, 1_500);
    assert_eq!(total.successful_turns, 1);
    total.record_failure(5, "broke".to_string());
    assert_eq!(total.turns, 2);
    assert_eq!(total.failed_turns, 1);
    assert_eq!(total.total_duration_ms, 125);
    assert_eq!(total.last_error.as_deref(), Some("broke"));
}

#[test]
fn environment_config_overrides_limits_and_gates() {
    let config = AutonomousConfig::default();
    assert!(config.max_turns > 0);
    assert_eq!(config.gates.max_retries, 3);
}

#[test]
fn the_environment_sets_limits() {
    let env = EnvironmentValues {
        gates: Some("a;b".to_string()),
        max_continuations: Some("2".to_string()),
        max_turns: Some("x".to_string()),
        max_tokens: Some("7".to_string()),
        timeout_ms: None,
        gate_retries: Some("0".to_string()),
        gate_timeout_ms: Some("9".to_string()),
    };
    let config = AutonomousConfig::from_environment(&env);
    let standard = AutonomousConfig::default();
    assert_eq!(config.max_continuations, 2);
    assert_eq!(config.max_turns, standard.max_turns);
    assert_eq!(config.max_tokens, 7);
    assert_eq!(config.timeout_ms, standard.timeout_ms);
    assert_eq!(config.gates.max_retries, 0);
    assert_eq!(config.gates.timeout_ms, 9);
    assert_eq!(config.gates.commands, parse_list("a;b"));
    assert!(config.validate().is_ok());
    let none = AutonomousConfig {
        max_turns: 0,
        ..AutonomousConfig::default()
    };
    assert_eq!(
        none.validate().unwrap_err().message,
        "autonomous max turns must be positive"
    );
}

#[test]
fn quality_gate_passes_and_captures_failure_output() {
    let mut passing = GateRunner::new(QualityGateConfig {
        commands: vec!["printf verified".to_string()],
        ..QualityGateConfig::default()
    })
    .unwrap();
    assert!(matches!(passing.consider(0, 1), GateStep::Run));
    assert!(matches!(
        passing.record(0, true, "0".to_string(), "verified", 1),
        GateStep::Next
    ));
    assert!(matches!(
        passing.consider(1, 1),
        GateStep::Stop(GateOutcome::Passed)
    ));

    let mut failing = GateRunner::new(QualityGateConfig {
        commands: vec!["printf nope >&2; exit 7".to_string()],
        max_retries: 0,
        ..QualityGateConfig::default()
    })
    .unwrap();
    assert!(matches!(failing.consider(0, 1), GateStep::Run));
    let outcome = failing.record(0, false, "7".to_string(), "nope", 1);
    let GateStep::Stop(GateOutcome::RetriesExhausted(failure)) = outcome else {
        panic!("expected an exhausted quality gate");
    };
    assert_eq!(failure.exit, "7");
    assert!(failure.output.contains("nope"));
}

#[test]
fn a_gate_is_not_run_again_on_an_unchanged_workspace() {
    let mut runner = GateRunner::new(QualityGateConfig {
        commands: vec!["test".to_string()],
        max_retries: 1,
        ..QualityGateConfig::default()
    })
    .unwrap();
    assert!(matches!(
        runner.record(0, false, "1".to_string(), "no", 5),
        GateStep::Stop(GateOutcome::Failed(_))
    ));
    assert!(matches!(
        runner.consider(0, 5),
        GateStep::Stop(GateOutcome::RetriesExhausted(f)) if f.attempt == 2
    ));
    assert!(matches!(runner.consider(0, 6), GateStep::Run));
    assert!(GateRunner::new(QualityGateConfig {
        commands: vec![" ".to_string()],
        ..QualityGateConfig::default()
    })
    .is_err());
}

#[test]
fn long_output_is_cut() {
    assert_eq!(truncate_output("ok"), "ok");
    let cut = truncate_output(&"x".repeat(7_000));
    assert_eq!(cut, "x".repeat(6_000) + "\n[output truncated]");
}

#[test]
fn an_agent_is_set_up() {
    assert!(check_setup(1, 256, "/a", "/a").is_ok());
    assert_eq!(
        check_setup(0, 256, "/a", "/a").unwrap_err().message,
        "tool timeout must be greater than zero"
    );
    assert_eq!(
        check_setup(1, 255, "/a", "/a").unwrap_err().message,
        "max tool output must be at least 256 bytes"
    );
    assert_eq!(
        check_setup(1, 256, "/b", "/a").unwrap_err().message,
        "session workspace does not match agent workspace"
    );
}

#[test]
fn an_agent_uses_skills() {
    let mut agent = agent(4);
    let documents = vec![Document {
        name: "AGENTS.md".to_string(),
        content: "be kind".to_string(),
    }];
    assert_eq!(agent.list_skills().0.len(), 1);
    assert_eq!(agent.skill_info("demo").unwrap().name, "demo");
    assert!(agent.skill_info("none").is_err());
    let run_before = agent.run_id();
    agent.activate_skill("demo", &documents).unwrap();
    assert!(agent.system_prompt().contains("Do the thing."));
    assert!(agent.system_prompt().contains("be kind"));
    assert_ne!(agent.run_id(), run_before);
    assert_eq!(agent.session().active_skills().len(), 1);
    agent.deactivate_skill("demo", &documents).unwrap();
    assert!(!agent.system_prompt().contains("Do the thing."));
    assert_eq!(
        agent
            .deactivate_skill("demo", &documents)
            .unwrap_err()
            .message,
        "Skill 'demo' is not active"
    );
    assert_eq!(
        agent.activate_skill("none", &documents).unwrap_err().message,
        "Skill 'none' was not found"
    );
}

#[test]
fn a_prompt_is_built() {
    let prompt = build(
        "/repo",
        &Vec::new(),
        &vec![SkillPrompt {
            name: "n".to_string(),
            source: "project".to_string(),
            digest: "d".to_string(),
            body: "body of n".to_string(),
        }],
    );
    assert!(prompt.starts_with("You are a coding agent"));
    assert!(prompt.contains("Workspace: /repo"));
    assert!(prompt.contains("body of n"));
}

#[test]
fn compaction_is_switched_off_by_the_environment() {
    assert!(auto_compact_enabled(None));
    assert!(auto_compact_enabled(Some("1".to_string())));
    assert!(!auto_compact_enabled(Some("off".to_string())));
    let request: Vec<ChatMessage> = compaction_request("source".to_string());
    assert_eq!(request[1].content, "source");
}

#[test]
fn a_summary_takes_the_place_of_old_turns() {
    let mut agent = agent(4);
    for index in 0..6 {
        let session = agent.session_mut();
        let (result, _, _) = run(
            session,
            &ToolRegistry::coding_defaults(),
            1,
            &format!("question {index}"),
            ApprovalDecision::Reject,
            |_, _| text("answer"),
        );
        result.unwrap();
    }
    assert!(!agent.should_auto_compact(None));
    let plan = agent.session().compaction_plan().unwrap();
    agent.apply_summary(plan, Some("so far".to_string())).unwrap();
    assert!(agent.session().context().messages[0].content.contains("so far"));
    let mut other = agent_with_turns();
    let plan = other.session().compaction_plan().unwrap();
    assert_eq!(
        other.apply_summary(plan, Some(" ".to_string())).unwrap_err().message,
        "compaction model returned no summary"
    );
}

fn agent_with_turns() -> Agent {
    let mut agent = agent(4);
    for index in 0..6 {
        run(
            agent.session_mut(),
            &ToolRegistry::coding_defaults(),
            1,
            &format!("question {index}"),
            ApprovalDecision::Reject,
            |_, _| text("answer"),
        )
        .0
        .unwrap();
    }
    agent
}

#[test]
fn an_agent_keeps_the_model_of_its_session() {
    let session = session();
    let model = session.summary().model;
    let mut agent = Agent::with_session(
        config(3),
        "0.3.0".to_string(),
        ToolRegistry::coding_defaults(),
        skills(),
        &Vec::new(),
        session,
        "another-id".to_string(),
    )
    .unwrap();
    assert_eq!(agent.session_summary().model, model);
    assert_eq!(agent.session_summary().model_id, "another-id");
    assert!(agent.transcript().items.is_empty());
    assert!(agent.active_skills().is_empty());
    assert!(agent.retry_input().is_none());
    assert_eq!(agent.context_token_estimate(), 0);
    agent.rename_session(" Fix the parser ").unwrap();
    assert_eq!(agent.session_summary().title, "Fix the parser");
    assert!(agent.rename_session(" ").is_err());
    agent.reset().unwrap();
    assert_eq!(agent.session_summary().context_epoch, 1);
    let turn = agent.session_mut().begin_turn("abcd".to_string()).unwrap();
    assert_eq!(agent.context_token_estimate(), 1);
    assert_eq!(
        agent.reset().unwrap_err().message,
        "cannot reset context during an active turn"
    );
    agent.session_mut().cancel_turn(&turn, "stop".to_string()).unwrap();
    assert_eq!(agent.retry_input().as_deref(), Some("abcd"));
    assert_eq!(agent.transcript().items[0].content, "Context reset.");
}

#[test]
fn texts_are_escaped_in_results() {
    assert_eq!(
        error_result("\"\\/\u{8}\t\n\u{c}\r\u{1}\u{1f}\u{7f}é\u{2028}"),
        "{\"error\":\"\\\"\\\\/\\b\\t\\n\\f\\r\\u0001\\u001f\u{7f}é\u{2028}\"}"
    );
}

#[test]
fn shortened_results_keep_to_the_limit() {
    for text in ["\u{1}", "\"", "é", "🙂", "x"] {
        for max in [256, 257, 300, 1_000] {
            let result = limit_tool_result(text.repeat(2_000), max);
            assert!(result.len() <= max);
            let value: serde_json::Value = serde_json::from_str(&result).unwrap();
            assert_eq!(value["original_bytes"], text.len() * 2_000);
            assert_eq!(value["truncated"], true);
        }
    }
}
