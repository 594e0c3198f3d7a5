use noya::agent::control::ApprovalRequest;
use noya::agent::diagnostics::AgentDiagnostics;
use noya::agent::event::AgentEvent;
use noya::error::Error;
use noya::ids::{SessionId, TurnId};
use noya::job::manager::{Dispatch, JobManager};
use noya::job::model::{
    take_records_after, JobEvent, JobEventRecord, JobStatus, JobSummary, JOB_SCHEMA_VERSION,
};
use noya::job::worker::{
    gives_up, on_idle_command, settle_turn, IdleStep, TurnEnd, WorkerCommand,
};

const SOURCE: SessionId = SessionId(100);

fn manager(workers: usize) -> JobManager {
    JobManager::new(workers, SOURCE, Vec::new(), 0).unwrap()
}

fn submit(manager: &mut JobManager, id: u128) -> JobSummary {
    manager.submit(
        id,
        SOURCE,
        SessionId(id),
        "/repo".to_string(),
        "background work".to_string(),
        None,
        1,
    )
}

fn start(manager: &mut JobManager, id: u128) {
    match manager.next_dispatch() {
        Dispatch::Start {
            job_id,
            session_id,
            needs_worker,
            ..
        } => {
            assert_eq!(job_id, id);
            if needs_worker {
                manager.worker_created(session_id);
            }
            manager.start_job(job_id, session_id, 2).unwrap();
        }
        other => panic!("nothing to start: {other:?}"),
    }
}

fn status(manager: &JobManager, id: u128) -> JobStatus {
    manager.get_summary(id).unwrap().status
}

fn request() -> ApprovalRequest {
    ApprovalRequest {
        request_id: "r".to_string(),
        call_id: "c".to_string(),
        tool_name: "run_command".to_string(),
        arguments: "{}".to_string(),
    }
}

#[test]
fn terminal_job_states_are_not_active() {
    assert!(JobStatus::Completed.is_terminal());
    assert!(JobStatus::Interrupted.is_terminal());
    assert!(!JobStatus::Running.is_terminal());
    assert!(!JobStatus::Cancelling.is_terminal());
}

#[test]
fn states_are_named() {
    assert_eq!(JobStatus::Queued.name(), "Queued");
    assert_eq!(JobStatus::WaitingApproval.name(), "WaitingApproval");
    assert!(JobStatus::WaitingApproval.is_under_way());
    assert!(!JobStatus::Queued.is_under_way());
}

#[test]
fn job_store_round_trips_metadata_and_events() {
    let mut manager = manager(1);
    let summary = submit(&mut manager, 1);
    let records = manager.take_records();
    assert_eq!(records.len(), 1);
    assert_eq!(records[0].job_id, summary.job_id);
    assert_eq!(manager.get_summary(1).unwrap().last_sequence, 1);
    let records: Vec<JobEventRecord> = records.into_iter().map(|n| n.record).collect();
    assert!(matches!(
        records[0].event,
        JobEvent::StateChanged {
            from: None,
            to: JobStatus::Queued,
            reason: None
        }
    ));
    assert_eq!(records[0].schema_version, JOB_SCHEMA_VERSION);
    assert_eq!(take_records_after(records, 0).len(), 1);
}

#[test]
fn records_come_after_a_cursor() {
    let records = (1..=3)
        .map(|sequence| JobEventRecord {
            schema_version: JOB_SCHEMA_VERSION,
            sequence,
            timestamp: 0,
            event: JobEvent::Failed {
                message: String::new(),
            },
        })
        .collect();
    let left = take_records_after(records, 1);
    assert_eq!(left.iter().map(|r| r.sequence).collect::<Vec<_>>(), [2, 3]);
}

#[test]
fn a_job_runs_to_its_end() {
    let mut manager = manager(1);
    submit(&mut manager, 1);
    start(&mut manager, 1);
    assert_eq!(status(&manager, 1), JobStatus::Running);
    manager
        .record_agent_event(
            1,
            AgentEvent::TextDelta {
                turn_id: TurnId(1),
                message_id: 1,
                chunk: "hi".to_string(),
                is_final: false,
            },
            3,
        )
        .unwrap();
    assert_eq!(manager.get_summary(1).unwrap().output, "hi");
    manager
        .finish_job(1, Ok(AgentDiagnostics::default()), "done".to_string(), false, 4)
        .unwrap();
    let job = manager.get_summary(1).unwrap();
    assert_eq!(job.status, JobStatus::Completed);
    assert_eq!(job.output, "done");
    assert_eq!(job.completed_at, Some(4));
    let sequences: Vec<u64> = manager
        .take_records()
        .iter()
        .map(|n| n.record.sequence)
        .collect();
    assert_eq!(sequences, (1..=sequences.len() as u64).collect::<Vec<_>>());
}

#[test]
fn only_so_many_jobs_run() {
    let mut manager = manager(1);
    submit(&mut manager, 1);
    submit(&mut manager, 2);
    start(&mut manager, 1);
    assert!(matches!(manager.next_dispatch(), Dispatch::Idle));
    let state = manager.daemon_status();
    assert_eq!((state.capacity, state.running, state.queued), (1, 1, 1));
    manager
        .finish_job(1, Err("broke".to_string()), String::new(), false, 3)
        .unwrap();
    assert_eq!(status(&manager, 1), JobStatus::Failed);
    start(&mut manager, 2);
    assert_eq!(manager.worker_list(), [SessionId(2)]);
}

#[test]
fn an_idle_worker_is_used_again() {
    let mut manager = manager(1);
    submit(&mut manager, 1);
    start(&mut manager, 1);
    manager
        .finish_job(1, Ok(AgentDiagnostics::default()), String::new(), false, 3)
        .unwrap();
    manager.submit(
        2,
        SOURCE,
        SessionId(1),
        "/repo".to_string(),
        "more".to_string(),
        Some(1),
        4,
    );
    match manager.next_dispatch() {
        Dispatch::Start {
            needs_worker,
            evicted,
            ..
        } => {
            assert!(!needs_worker);
            assert_eq!(evicted, None);
        }
        other => panic!("nothing to start: {other:?}"),
    }
}

#[test]
fn a_queued_job_is_cancelled_at_once() {
    let mut manager = manager(1);
    submit(&mut manager, 1);
    let done = manager.cancel(1, 2).unwrap();
    assert_eq!(done.notify, None);
    assert_eq!(status(&manager, 1), JobStatus::Cancelled);
    assert!(matches!(manager.next_dispatch(), Dispatch::Idle));
    assert!(manager.cancel(1, 3).is_err());
    assert!(manager.cancel(9, 3).is_err());
}

#[test]
fn a_running_job_is_cancelled_in_two_steps() {
    let mut manager = manager(1);
    submit(&mut manager, 1);
    start(&mut manager, 1);
    let done = manager.cancel(1, 2).unwrap();
    assert_eq!(done.notify, Some(SessionId(1)));
    assert!(!done.reject_approval);
    assert_eq!(status(&manager, 1), JobStatus::Cancelling);
    manager
        .finish_job(1, Err("turn cancelled".to_string()), String::new(), true, 3)
        .unwrap();
    assert_eq!(status(&manager, 1), JobStatus::Cancelled);
}

#[test]
fn a_job_waits_for_approval() {
    let mut manager = manager(1);
    submit(&mut manager, 1);
    start(&mut manager, 1);
    assert!(!manager.awaits_approval(1));
    assert!(manager.approve(1).is_err());
    manager.record_approval(1, request(), 2).unwrap();
    assert_eq!(status(&manager, 1), JobStatus::WaitingApproval);
    assert!(manager.awaits_approval(1));
    assert_eq!(
        manager.get_summary(1).unwrap().approval.unwrap().tool_name,
        "run_command"
    );
    manager.approve(1).unwrap();
    assert!(!manager.awaits_approval(1));
}

#[test]
fn a_waiting_job_is_refused_when_cancelled() {
    let mut manager = manager(1);
    submit(&mut manager, 1);
    start(&mut manager, 1);
    manager.record_approval(1, request(), 2).unwrap();
    let done = manager.cancel(1, 3).unwrap();
    assert!(done.reject_approval);
}

#[test]
fn an_ended_job_is_retried() {
    let mut manager = manager(1);
    submit(&mut manager, 1);
    assert!(manager.retry(1).is_err());
    manager.cancel(1, 2).unwrap();
    let (source, prompt) = manager.retry(1).unwrap();
    assert_eq!(source, SOURCE);
    assert_eq!(prompt, "background work");
    assert!(manager.retry(9).is_err());
}

#[test]
fn a_restart_interrupts_what_was_running() {
    let mut first = manager(2);
    submit(&mut first, 1);
    start(&mut first, 1);
    submit(&mut first, 2);
    let kept = first.list();
    let mut again = JobManager::new(2, SOURCE, kept, 9).unwrap();
    assert_eq!(status(&again, 1), JobStatus::Interrupted);
    assert_eq!(status(&again, 2), JobStatus::Queued);
    start(&mut again, 2);
}

#[test]
fn there_is_always_a_worker() {
    assert_eq!(manager(0).daemon_status().capacity, 4);
}

#[test]
fn a_prompt_must_say_something() {
    let manager = manager(1);
    assert_eq!(manager.source_for(None, "do").unwrap(), SOURCE);
    assert_eq!(
        manager.source_for(Some(SessionId(5)), "do").unwrap(),
        SessionId(5)
    );
    assert_eq!(
        manager.source_for(None, "  ").unwrap_err().message,
        "Job prompt cannot be empty"
    );
    assert_eq!(manager.session_for(None).unwrap(), None);
    assert!(manager.session_for(Some(9)).is_err());
}

#[test]
fn a_worker_follows_its_orders() {
    assert!(matches!(
        on_idle_command(WorkerCommand::Run {
            job_id: 1,
            prompt: "p".to_string()
        }),
        IdleStep::Start { job_id: 1, prompt } if prompt == "p"
    ));
    assert!(matches!(
        on_idle_command(WorkerCommand::Cancel),
        IdleStep::Wait
    ));
    assert!(matches!(
        on_idle_command(WorkerCommand::Shutdown),
        IdleStep::Stop
    ));
    assert!(gives_up(Some(WorkerCommand::Cancel)));
    assert!(gives_up(Some(WorkerCommand::Shutdown)));
    assert!(gives_up(None));
    let (result, output) = settle_turn(TurnEnd::Returned {
        result: Err(Error {
            message: "m".to_string(),
        }),
        diagnostics: AgentDiagnostics::default(),
        output: "o".to_string(),
    });
    assert_eq!(result.unwrap_err(), "m");
    assert_eq!(output, "o");
    let (result, output) = settle_turn(TurnEnd::Lost {
        error: "panic".to_string(),
    });
    assert_eq!(result.unwrap_err(), "Job Worker task failed: panic");
    assert_eq!(output, "");
}
