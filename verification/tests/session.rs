use noya::ids::{RunId, SessionId, TurnId};
use noya::llm::protocol::{CalledFunction, ChatMessage, ToolCall};
use noya::session::compaction::threshold_reached;
use noya::session::durable::{default_title, Session};
use noya::session::event::{event_type, EventEnvelope, SessionEvent};
use noya::session::log::{
    check_line, check_version, complete_lines, plan_repair, read_only_lines, tail_start,
    undecodable, Repair,
};
use noya::session::manager::SessionManager;
use noya::session::model::{
    AssistantRecord, CompactionRecord, CreateSession, RuntimeSnapshot, SessionFilter,
    SessionStatus, SessionSummary, ToolCallRecord, ToolResultRecord, TranscriptKind, TurnFailure,
};
use noya::session::projection::{estimate_message_tokens, Projection};
use noya::session::recovery::{partial_output, ActiveDraft};

trait Written {
    fn take_unsaved(&mut self) -> Vec<EventEnvelope>;
}

impl Written for Session {
    fn take_unsaved(&mut self) -> Vec<EventEnvelope> {
        let mut events = Vec::new();
        while let Some(event) = self.take_next() {
            self.confirm();
            events.push(event);
        }
        events
    }
}

fn manager() -> SessionManager {
    SessionManager::at("/data".to_string())
}

fn create(manager: &SessionManager, model: &str, model_id: &str) -> Session {
    manager
        .create(CreateSession {
            workspace: "/repo".to_string(),
            model: model.to_string(),
            model_id: model_id.to_string(),
        })
        .unwrap()
}

fn create_test_session(manager: &SessionManager) -> Session {
    create(manager, "qwen", "qwen3-coder-plus")
}

fn said(content: &str) -> AssistantRecord {
    AssistantRecord {
        message_id: 7,
        content: content.to_string(),
        reasoning_content: None,
        tool_calls: Vec::new(),
    }
}

fn asked(id: &str) -> AssistantRecord {
    AssistantRecord {
        message_id: 8,
        content: String::new(),
        reasoning_content: None,
        tool_calls: vec![ToolCall {
            id: id.to_string(),
            call_type: "function".to_string(),
            function: CalledFunction {
                name: "read_file".to_string(),
                arguments: "{\"path\":\"README.md\"}".to_string(),
            },
        }],
    }
}

fn exchange(session: &mut Session, index: usize) {
    let turn_id = session.begin_turn(format!("question {index}")).unwrap();
    session
        .record_assistant(said(&format!("answer {index}")))
        .unwrap();
    session.finish_turn(&turn_id).unwrap();
}

fn reopen(id: SessionId, events: &[EventEnvelope]) -> Session {
    Session::open(id, events, None).unwrap()
}

fn summary_of(manager: &SessionManager, updated_at: i128, workspace: &str) -> SessionSummary {
    let mut summary = create_test_session(manager).summary();
    summary.updated_at = updated_at;
    summary.workspace = workspace.to_string();
    summary
}

#[test]
fn automatic_compaction_starts_at_seventy_five_percent() {
    assert!(!threshold_reached(74_999, 100_000));
    assert!(threshold_reached(75_000, 100_000));
}

#[test]
fn the_threshold_does_not_overflow() {
    assert!(threshold_reached(usize::MAX, usize::MAX));
    assert!(!threshold_reached(0, 1));
    assert!(threshold_reached(0, 0));
}

#[test]
fn completed_tool_turn_reopens_as_provider_valid_context() {
    let manager = manager();
    let mut session = create_test_session(&manager);
    let session_id = *session.id();

    let turn_id = session.begin_turn("inspect README".to_string()).unwrap();
    session.record_assistant(asked("call-1")).unwrap();
    session
        .record_tool_started(ToolCallRecord {
            call_id: "call-1".to_string(),
            name: "read_file".to_string(),
            arguments: "{\"path\":\"README.md\"}".to_string(),
        })
        .unwrap();
    session
        .record_tool_finished(ToolResultRecord {
            call_id: "call-1".to_string(),
            name: "read_file".to_string(),
            result: "{\"content\":\"Noya\"}".to_string(),
            success: true,
            duration_ms: 3,
        })
        .unwrap();
    session.record_assistant(said("README inspected.")).unwrap();
    session.finish_turn(&turn_id).unwrap();
    let events = session.take_unsaved();

    let reopened = reopen(session_id, &events);
    let messages = reopened.context().messages;
    assert_eq!(messages.len(), 4);
    assert_eq!(messages[0].role, "user");
    assert_eq!(messages[1].tool_calls.as_ref().unwrap()[0].id, "call-1");
    assert_eq!(messages[2].role, "tool");
    assert_eq!(messages[2].tool_call_id.as_deref(), Some("call-1"));
    assert_eq!(messages[2].content, "{\"content\":\"Noya\"}");
    assert_eq!(messages[3].content, "README inspected.");
}

#[test]
fn compaction_keeps_transcript_and_only_projects_summary_plus_four_recent_turns() {
    let manager = manager();
    let mut session = create_test_session(&manager);
    let session_id = *session.id();
    for index in 0..6 {
        exchange(&mut session, index);
    }
    let transcript_before = session.transcript().items.len();
    let plan = session.compaction_plan().unwrap();
    session
        .apply_compaction(CompactionRecord {
            summary: "The first two questions were answered.".to_string(),
            through_seq: plan.through_seq,
            through_turn_id: plan.through_turn_id,
            keep_from_turn_id: plan.keep_from_turn_id,
            source_token_estimate: plan.source_token_estimate,
            summary_model: "qwen3-coder-plus".to_string(),
        })
        .unwrap();
    let events = session.take_unsaved();

    let reopened = reopen(session_id, &events);
    assert_eq!(reopened.transcript().items.len(), transcript_before + 1);
    let context = reopened.context().messages;
    assert_eq!(context.len(), 9);
    assert!(context[0].content.contains("first two questions"));
    assert_eq!(context[1].content, "question 2");
    assert_eq!(context[8].content, "answer 5");
}

#[test]
fn fork_is_independent_and_excludes_uncompleted_turns() {
    let manager = manager();
    let mut parent = create(&manager, "kimi", "kimi-k3");
    let parent_id = *parent.id();
    for index in 0..2 {
        exchange(&mut parent, index);
    }
    let failed = parent.begin_turn("do not copy".to_string()).unwrap();
    parent
        .fail_turn(
            &failed,
            TurnFailure {
                message: "failed".to_string(),
                recoverable: true,
            },
        )
        .unwrap();
    let parent_events = parent.take_unsaved();

    let kept = reopen(parent_id, &parent_events);
    let mut child = manager.fork(parent_id, parent_events, None).unwrap();
    let child_id = *child.id();
    assert_ne!(child_id, parent_id);
    assert_eq!(child.summary().session_id, child_id);
    assert_eq!(child.summary().parent_session_id, Some(parent_id));
    assert_eq!(child.context().messages.len(), 4);
    assert!(!child
        .transcript()
        .items
        .iter()
        .any(|item| item.content.contains("do not copy")));
    let child_events = child.take_unsaved();

    assert!(kept
        .transcript()
        .items
        .iter()
        .any(|item| item.content.contains("do not copy")));
    let child = reopen(child_id, &child_events);
    assert_eq!(child.context().messages[0].content, "question 0");
}

#[test]
fn a_fork_is_sent_what_its_parent_was_sent() {
    let manager = manager();
    let mut parent = create_test_session(&manager);
    let parent_id = *parent.id();
    for index in 0..5 {
        exchange(&mut parent, index);
    }
    let given_up = parent.begin_turn("never mind".to_string()).unwrap();
    parent.cancel_turn(&given_up, "changed".to_string()).unwrap();
    exchange(&mut parent, 5);
    let plan = parent.compaction_plan().unwrap();
    parent
        .apply_compaction(CompactionRecord {
            summary: "what was before".to_string(),
            through_seq: plan.through_seq,
            through_turn_id: plan.through_turn_id,
            keep_from_turn_id: plan.keep_from_turn_id,
            source_token_estimate: plan.source_token_estimate,
            summary_model: "qwen".to_string(),
        })
        .unwrap();
    exchange(&mut parent, 6);
    let sent: Vec<String> = parent
        .context()
        .messages
        .iter()
        .map(|message| message.content.clone())
        .collect();
    let events = parent.take_unsaved();
    let child = manager.fork(parent_id, events, None).unwrap();
    let taken: Vec<String> = child
        .context()
        .messages
        .iter()
        .map(|message| message.content.clone())
        .collect();
    assert_eq!(taken, sent);
    assert_eq!(taken.len(), 11);
    assert_eq!(
        taken[0],
        "Summary of earlier session context:\nwhat was before"
    );
}

#[test]
fn a_fork_may_stop_at_an_earlier_turn() {
    let manager = manager();
    let mut parent = create_test_session(&manager);
    let parent_id = *parent.id();
    exchange(&mut parent, 0);
    let cut = parent.last_seq();
    exchange(&mut parent, 1);
    let events = parent.take_unsaved();
    let child = manager.fork(parent_id, events, Some(cut)).unwrap();
    assert_eq!(child.context().messages.len(), 2);
}

#[test]
fn a_fork_needs_a_completed_turn() {
    let manager = manager();
    let mut parent = create_test_session(&manager);
    let parent_id = *parent.id();
    parent.begin_turn("unfinished".to_string()).unwrap();
    let events = parent.take_unsaved();
    assert!(manager.fork(parent_id, events, Some(2)).is_err());
}

#[test]
fn unfinished_turn_recovers_partial_draft_without_polluting_context() {
    let manager = manager();
    let mut session = create_test_session(&manager);
    let session_id = *session.id();
    let turn_id = session.begin_turn("unfinished request".to_string()).unwrap();
    assert!(session.draft_is_due("partial answer".len(), None, true));
    let draft = ActiveDraft::new(
        session_id,
        RunId::new(),
        turn_id,
        9,
        "partial answer".to_string(),
    );
    let events = session.take_unsaved();

    let found = partial_output(Some(draft), session_id, turn_id);
    let reopened = Session::open(session_id, &events, found).unwrap();

    assert!(reopened.context().messages.is_empty());
    assert_eq!(
        reopened.retry_input().as_deref(),
        Some("unfinished request")
    );
    assert!(reopened
        .transcript()
        .items
        .iter()
        .any(|item| item.content == "partial answer" && item.interrupted));
}

#[test]
fn a_draft_of_another_turn_is_not_used() {
    let draft = ActiveDraft::new(SessionId(1), RunId(2), TurnId(3), 4, "text".to_string());
    assert_eq!(partial_output(Some(draft), SessionId(1), TurnId(9)), None);
    assert_eq!(partial_output(None, SessionId(1), TurnId(9)), None);
}

#[test]
fn drafts_are_saved_now_and_then() {
    let mut session = create_test_session(&manager());
    assert!(session.draft_is_due(1, None, false));
    session.draft_saved(1);
    assert!(!session.draft_is_due(2, Some(10), false));
    assert!(session.draft_is_due(2, Some(1_000_000), false));
    assert!(session.draft_is_due(1_000_000, Some(10), false));
    assert!(session.draft_is_due(2, Some(10), true));
}

#[test]
fn torn_tail_is_backed_up_and_repaired_but_middle_corruption_is_rejected() {
    let whole = b"{\"a\":1}\n".to_vec();
    let mut torn = whole.clone();
    torn.extend_from_slice(b"{\"schema_version\":");
    assert_eq!(tail_start(&torn), whole.len());
    assert_eq!(plan_repair(&torn, false), Repair::Truncate(whole.len()));
    assert_eq!(plan_repair(&torn, true), Repair::Terminate);
    assert_eq!(plan_repair(&whole, false), Repair::Intact);
    assert_eq!(plan_repair(b"", false), Repair::Empty);
    assert_eq!(plan_repair(b"{", false), Repair::Hopeless);

    assert_eq!(complete_lines(&whole).unwrap(), ["{\"a\":1}"]);
    let error = undecodable("/data/events.jsonl", 0).message;
    assert!(error.contains("decode session event"));
}

#[test]
fn lines_are_checked() {
    assert!(complete_lines(b"\xff\n").is_err());
    assert_eq!(read_only_lines(b"{}\n{}\n", "/p").unwrap().len(), 2);
    assert_eq!(
        read_only_lines(b"{}\n{\"torn", "/p").unwrap_err().message,
        "session log has an incomplete final line: /p"
    );
    assert!(check_line("{}", "/p", 0).is_ok());
    let error = check_line("", "/p", 2).unwrap_err().message;
    assert!(error.contains("/p"));
    assert!(error.contains('3'));
    assert!(check_version(1).is_ok());
    assert!(check_version(2).is_err());
}

#[test]
fn missing_metadata_is_rebuilt_and_archive_removes_session_from_latest() {
    let manager = manager();
    let mut session = create_test_session(&manager);
    let session_id = *session.id();
    let events = session.take_unsaved();

    let mut reopened = reopen(session_id, &events);
    assert_eq!(reopened.summary().last_seq, 1);
    reopened.archive().unwrap();
    let put_away = vec![reopened.summary()];
    let kept = Vec::new();

    assert!(manager.latest(&kept, "/repo").is_none());
    assert_eq!(
        manager
            .list(
                &kept,
                &put_away,
                &SessionFilter {
                    workspace: Some("/repo".to_string()),
                    include_archived: true,
                },
            )
            .len(),
        1
    );
    assert_eq!(
        manager
            .list(
                &kept,
                &put_away,
                &SessionFilter {
                    workspace: Some("/repo".to_string()),
                    include_archived: false,
                },
            )
            .len(),
        0
    );
}

#[test]
fn sessions_are_listed_by_age() {
    let manager = manager();
    let kept = vec![
        summary_of(&manager, 1, "/repo"),
        summary_of(&manager, 3, "/other"),
        summary_of(&manager, 2, "/repo"),
    ];
    let listed = manager.list(
        &kept,
        &Vec::new(),
        &SessionFilter {
            workspace: None,
            include_archived: false,
        },
    );
    let ages: Vec<i128> = listed.iter().map(|s| s.updated_at).collect();
    assert_eq!(ages, [3, 2, 1]);
    assert_eq!(manager.latest(&kept, "/repo").unwrap().updated_at, 2);
    assert!(manager.latest(&kept, "/none").is_none());
}

#[test]
fn a_prefix_names_one_session() {
    let manager = manager();
    let sessions = vec![
        summary_of(&manager, 1, "/repo"),
        summary_of(&manager, 2, "/repo"),
    ];
    let text = sessions[1].session_id.to_text();
    assert_eq!(
        manager.resolve_prefix(&text, &sessions).unwrap(),
        sessions[1].session_id
    );
    assert!(manager.resolve_prefix("zzzz", &sessions).is_err());
    assert!(manager.resolve_prefix("", &sessions).is_err());
}

#[test]
fn directories_are_found() {
    let manager = manager();
    let id = SessionId(0);
    assert_eq!(manager.root(), "/data");
    assert_eq!(manager.sessions_dir(), "/data/sessions");
    assert_eq!(manager.archive_dir(), "/data/archive");
    let zero = "00000000-0000-0000-0000-000000000000";
    assert_eq!(
        manager.find_session_dir(id, true, true).unwrap(),
        format!("/data/sessions/{zero}")
    );
    assert_eq!(
        manager.find_session_dir(id, false, true).unwrap(),
        format!("/data/archive/{zero}")
    );
    assert!(manager.find_session_dir(id, false, false).is_err());
}

#[test]
fn ids_are_written_as_uuids() {
    let id = SessionId(0x0123_4567_89ab_cdef_0123_4567_89ab_cdef);
    assert_eq!(id.to_text(), "01234567-89ab-cdef-0123-456789abcdef");
    assert_eq!(SessionId::parse(&id.to_text()).unwrap(), id);
    assert!(SessionId::parse("nothing").is_err());
    assert_ne!(SessionId::new(), SessionId::new());
    assert_eq!(TurnId(1).to_text().len(), 36);
    assert_eq!(RunId(1).to_text().len(), 36);
}

#[test]
fn a_title_is_the_first_words() {
    assert_eq!(default_title("  fix   the\nbug "), "fix the bug");
    let long = "x".repeat(200);
    assert!(default_title(&long).chars().count() < 200);
    assert_eq!(default_title("   "), "");
}

#[test]
fn a_first_turn_names_the_session() {
    let mut session = create_test_session(&manager());
    assert_eq!(session.summary().title, "New session");
    session.begin_turn("fix the bug".to_string()).unwrap();
    assert_eq!(session.summary().title, "fix the bug");
    assert_eq!(session.summary().status, SessionStatus::Running);
    assert!(session.begin_turn("again".to_string()).is_err());
}

#[test]
fn a_session_is_renamed() {
    let mut session = create_test_session(&manager());
    session.rename("  other ").unwrap();
    assert_eq!(session.summary().title, "other");
    assert!(session.rename("  ").is_err());
    assert_eq!(session.summary().title, "other");
}

#[test]
fn a_model_is_changed() {
    let mut session = create_test_session(&manager());
    session
        .change_model("kimi".to_string(), "kimi-k3".to_string())
        .unwrap();
    assert_eq!(session.summary().model, "kimi");
    assert_eq!(session.summary().model_id, "kimi-k3");
}

#[test]
fn skills_come_and_go() {
    let mut session = create_test_session(&manager());
    session
        .activate_skill("b".to_string(), "project".to_string(), "d".to_string(), 1)
        .unwrap();
    session
        .activate_skill("a".to_string(), "project".to_string(), "d".to_string(), 0)
        .unwrap();
    let names: Vec<String> = session.active_skills().into_iter().map(|s| s.name).collect();
    assert_eq!(names, ["a", "b"]);
    session.deactivate_skill("a".to_string()).unwrap();
    assert_eq!(session.active_skills().len(), 1);
}

#[test]
fn a_reset_forgets_the_context() {
    let mut session = create_test_session(&manager());
    exchange(&mut session, 0);
    assert_eq!(session.context().messages.len(), 2);
    let epoch = session.summary().context_epoch;
    session.reset_context().unwrap();
    assert_eq!(session.context().messages.len(), 0);
    assert_eq!(session.summary().context_epoch, epoch + 1);
    assert!(session.compaction_plan().is_none());
}

#[test]
fn a_cancelled_turn_can_be_retried() {
    let mut session = create_test_session(&manager());
    let turn_id = session.begin_turn("do it".to_string()).unwrap();
    session.cancel_turn(&turn_id, "stopped".to_string()).unwrap();
    assert!(session.context().messages.is_empty());
    assert_eq!(session.retry_input().as_deref(), Some("do it"));
    assert!(session.finish_turn(&turn_id).is_err());
}

#[test]
fn a_call_must_be_known() {
    let mut session = create_test_session(&manager());
    let turn_id = session.begin_turn("go".to_string()).unwrap();
    session.record_assistant(asked("call-1")).unwrap();
    assert!(session
        .record_tool_finished(ToolResultRecord {
            call_id: "call-2".to_string(),
            name: "read_file".to_string(),
            result: "{}".to_string(),
            success: true,
            duration_ms: 0,
        })
        .is_err());
    assert!(session.finish_turn(&turn_id).is_err());
}

#[test]
fn a_call_is_named_once_in_its_turn() {
    let mut session = create_test_session(&manager());
    let turn_id = session.begin_turn("q".to_string()).unwrap();
    session.record_assistant(asked("a")).unwrap();
    session
        .record_tool_started(ToolCallRecord {
            call_id: "a".to_string(),
            name: "read_file".to_string(),
            arguments: "{}".to_string(),
        })
        .unwrap();
    session
        .record_tool_finished(ToolResultRecord {
            call_id: "a".to_string(),
            name: "read_file".to_string(),
            result: "{}".to_string(),
            success: true,
            duration_ms: 0,
        })
        .unwrap();
    assert_eq!(
        session.record_assistant(asked("a")).unwrap_err().message,
        "duplicate tool call ID a"
    );
    session.record_assistant(said("done")).unwrap();
    session.finish_turn(&turn_id).unwrap();
    session.begin_turn("again".to_string()).unwrap();
    session.record_assistant(asked("a")).unwrap();
}

fn runtime_snapshot(workspace: &str) -> RuntimeSnapshot {
    RuntimeSnapshot {
        noya_version: "0.3.0".to_string(),
        workspace: workspace.to_string(),
        model: "kimi".to_string(),
        model_id: "kimi-k3".to_string(),
        system_prompt: "p".to_string(),
        tool_names: Vec::new(),
        max_tool_loops: 1,
        tool_timeout_ms: 1,
        max_tool_output_bytes: 1,
        temperature_bits: None,
        tool_approval_mode: "mutating".to_string(),
        blocked_tools: Vec::new(),
        active_skills: Vec::new(),
    }
}

#[test]
fn a_runtime_is_recorded() {
    let mut session = create_test_session(&manager());
    assert_eq!(session.current_run(), None);
    let run = session
        .start_runtime(runtime_snapshot("/repo"))
        .unwrap();
    assert_eq!(session.current_run(), Some(run));
    let events = session.take_unsaved();
    assert_eq!(event_type(&events[1].event), "runtime_started");
    assert_eq!(events[1].run_id, Some(run));
}

#[test]
fn events_follow_one_another() {
    let mut session = create_test_session(&manager());
    exchange(&mut session, 0);
    let events = session.take_unsaved();
    let seqs: Vec<u64> = events.iter().map(|e| e.seq).collect();
    assert_eq!(seqs, [1, 2, 3, 4, 5]);
    assert!(session.take_unsaved().is_empty());
    assert_eq!(session.last_seq(), 5);
    let types: Vec<String> = events.iter().map(|e| event_type(&e.event)).collect();
    assert_eq!(
        types,
        [
            "session_created",
            "title_changed",
            "turn_started",
            "assistant_completed",
            "turn_completed"
        ]
    );
    assert!(events[0].timestamp > 0);
    assert_ne!(events[0].event_id, events[1].event_id);
}

#[test]
fn a_log_with_a_gap_is_refused() {
    let mut session = create_test_session(&manager());
    exchange(&mut session, 0);
    let mut events = session.take_unsaved();
    events.remove(1);
    assert!(Projection::replay(&events).is_err());
    assert!(Projection::replay(&[]).is_err());
}

#[test]
fn a_log_of_two_sessions_is_refused() {
    let mut session = create_test_session(&manager());
    exchange(&mut session, 0);
    let mut events = session.take_unsaved();
    events[2].session_id = SessionId(1);
    assert!(Projection::replay(&events).is_err());
}

#[test]
fn branches_are_followed() {
    let mut session = create_test_session(&manager());
    exchange(&mut session, 0);
    let id = *session.id();
    let mut events = session.take_unsaved();
    events.push(EventEnvelope::at(
        id,
        6,
        None,
        None,
        SessionEvent::BranchCreated {
            branch_id: 9,
            name: "try".to_string(),
            from_seq: 5,
        },
        1,
        1,
    ));
    let projection = Projection::replay(&events).unwrap();
    let tree = projection.tree();
    assert_eq!(tree.branches.len(), 1);
    assert_eq!(tree.branch(9).unwrap().name, "try");
    assert!(tree.branch(8).is_none());
    assert_eq!(tree.completed_turn_boundary(None).unwrap(), 5);
    assert!(tree.completed_turn_boundary(Some(4)).is_err());
    assert_eq!(projection.summary().branch_count, 1);
}

#[test]
fn a_session_is_exported() {
    let manager = manager();
    let mut session = create_test_session(&manager);
    exchange(&mut session, 0);
    let events = session.take_unsaved();
    let text = manager.export(&events).unwrap();
    assert!(text.contains("question 0"));
    assert!(text.contains("answer 0"));
    let snapshot = manager.show(&events).unwrap();
    assert_eq!(snapshot.summary.completed_turns, 1);
    assert_eq!(snapshot.transcript.items[0].kind, TranscriptKind::User);
    assert!(manager.show(&[]).is_err());
}

#[test]
fn tokens_are_estimated_from_length() {
    let message = ChatMessage::plain("user", "x".repeat(400));
    let tokens = estimate_message_tokens(&message);
    assert!(tokens >= 100);
    assert!(tokens < 200);
}

#[test]
fn a_session_without_a_home_works_too() {
    let mut session = Session::ephemeral("/repo".to_string(), "m".to_string(), "i".to_string())
        .unwrap();
    exchange(&mut session, 0);
    assert_eq!(session.context().messages.len(), 2);
    assert!(!session.should_auto_compact(100_000));
    assert!(session.should_auto_compact(1));
}

#[test]
fn a_failed_write_changes_nothing() {
    let mut session = create_test_session(&manager());
    let id = *session.id();
    let mut log = session.take_unsaved();
    exchange(&mut session, 0);
    log.extend(session.take_unsaved());
    let seq = session.last_seq();

    session.begin_turn("lost".to_string()).unwrap();
    assert!(session.take_next().is_some());
    assert!(session.take_next().is_none());
    assert!(session.withdraw());
    assert_eq!(session.last_seq(), seq);
    assert!(session.take_next().is_none());
    assert_eq!(session.context().messages.len(), 2);
    assert_eq!(session.transcript().items.len(), 2);

    session.begin_turn("kept".to_string()).unwrap();
    log.extend(session.take_unsaved());
    let reopened = reopen(id, &log);
    assert_eq!(reopened.retry_input().as_deref(), Some("kept"));
    assert_eq!(log.last().unwrap().seq, seq + 1);
}

#[test]
fn what_was_written_stays() {
    let mut session = create_test_session(&manager());
    session.take_unsaved();
    let turn_id = session.begin_turn("first words".to_string()).unwrap();
    assert_eq!(session.summary().title, "first words");
    let title = session.take_next().unwrap();
    assert_eq!(event_type(&title.event), "title_changed");
    session.confirm();
    let start = session.take_next().unwrap();
    assert_eq!(start.turn_id, Some(turn_id));
    session.withdraw();
    assert_eq!(session.summary().title, "first words");
    assert_eq!(session.last_seq(), 2);
    assert!(session.finish_turn(&turn_id).is_err());
}

#[test]
fn a_run_that_was_not_written_is_not_begun() {
    let mut session = create_test_session(&manager());
    assert!(!session.withdraw());
    session.take_unsaved();
    let run = session.start_runtime(runtime_snapshot("/repo/")).unwrap();
    assert_eq!(session.current_run(), Some(run));
    session.withdraw();
    assert_eq!(session.current_run(), None);
    assert!(session.start_runtime(runtime_snapshot("/repo/x")).is_err());
}

#[test]
fn a_log_may_name_its_predecessors() {
    let mut session = create_test_session(&manager());
    exchange(&mut session, 0);
    let id = *session.id();
    let mut events = session.take_unsaved();
    for event in &mut events {
        event.parent_seq = Some(event.seq - 1);
    }
    assert_eq!(reopen(id, &events).context().messages.len(), 2);
}

#[test]
fn a_new_session_is_found_under_its_id() {
    let session = create_test_session(&manager());
    assert_eq!(session.summary().session_id, *session.id());
    assert_eq!(session.current_run(), None);
    let home_less = Session::ephemeral("/w".to_string(), "qwen".to_string(), "id".to_string());
    let home_less = home_less.unwrap();
    assert_eq!(home_less.summary().session_id, *home_less.id());
    assert!(home_less.transcript().items.is_empty());
    assert!(home_less.context().messages.is_empty());
}
