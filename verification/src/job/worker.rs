//! What a Worker does with what it is told.
use crate::agent::diagnostics::AgentDiagnostics;
use crate::error::Error;
use vstd::prelude::*;

verus! {

/// What a Worker is told.
#[derive(Debug)]
pub enum WorkerCommand {
    Run { job_id: u128, prompt: String },
    Cancel,
    Shutdown,
}

/// What a free Worker does.
#[derive(Debug)]
pub enum IdleStep {
    /// It starts a Job.
    Start { job_id: u128, prompt: String },
    /// It goes.
    Stop,
    /// It waits on.
    Wait,
}

/// What a free Worker does when it is told something.
pub fn on_idle_command(command: WorkerCommand) -> (r: IdleStep)
    ensures
        r == (match command {
            WorkerCommand::Run { job_id, prompt } => IdleStep::Start { job_id, prompt },
            WorkerCommand::Cancel => IdleStep::Wait,
            WorkerCommand::Shutdown => IdleStep::Stop,
        }),
{
    match command {
        WorkerCommand::Run { job_id, prompt } => IdleStep::Start { job_id, prompt },
        WorkerCommand::Cancel => IdleStep::Wait,
        WorkerCommand::Shutdown => IdleStep::Stop,
    }
}

/// Whether a Worker gives its turn up when it is told something, or when nobody
/// is left to tell it anything.
pub fn gives_up(command: Option<WorkerCommand>) -> (r: bool)
    ensures
        r == !(command matches Some(c) && c is Run),
{
    match command {
        Some(WorkerCommand::Run { job_id: _, prompt: _ }) => false,
        _ => true,
    }
}

/// How a turn came to an end.
#[derive(Debug)]
pub enum TurnEnd {
    /// It came to its end: well or badly, with what it put out.
    Returned { result: Result<(), Error>, diagnostics: AgentDiagnostics, output: String },
    /// Its task broke down.
    Lost { error: String },
}

/// What a Worker says of a turn that has ended.
pub fn settle_turn(end: TurnEnd) -> (r: (Result<AgentDiagnostics, String>, String))
    ensures
        match end {
            TurnEnd::Returned { result, diagnostics, output } => r.1 == output && match result {
                Ok(()) => r.0 == Ok::<AgentDiagnostics, String>(diagnostics),
                Err(e) => r.0 matches Err(m) && m@ == e@,
            },
            TurnEnd::Lost { error } => r.1@.len() == 0 && (r.0 matches Err(m) && m@
                == "Job Worker task failed: "@ + error@),
        },
{
    match end {
        TurnEnd::Returned { result, diagnostics, output } => match result {
            Ok(()) => (Ok(diagnostics), output),
            Err(e) => (Err(e.message), output),
        },
        TurnEnd::Lost { error } => {
            let mut message: String = "Job Worker task failed: ".to_owned();
            message.append(error.as_str());
            (Err(message), String::new())
        },
    }
}

} // verus!
