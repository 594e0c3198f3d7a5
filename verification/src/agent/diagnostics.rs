//! Counters over turns and tool calls. None of them ever wraps.
use crate::llm::protocol::{capped_sum, usage_normalized, usage_sum, Usage};
use vstd::prelude::*;

verus! {

/// The counters of one turn.
#[derive(Debug, Clone, Copy, PartialEq, Eq, Structural)]
pub struct TurnDiagnostics {
    pub elapsed_ms: u64,
    pub usage: Usage,
    pub usage_estimated: bool,
    pub tool_calls: u64,
    pub successful_tool_calls: u64,
    pub failed_tool_calls: u64,
    pub tool_duration_ms: u64,
}

/// No tokens.
pub open spec fn no_usage() -> Usage {
    Usage {
        input_tokens: 0,
        output_tokens: 0,
        total_tokens: 0,
        cache_read_tokens: 0,
        cache_write_tokens: 0,
    }
}

impl Default for TurnDiagnostics {
    fn default() -> (r: Self)
        ensures
            r == (TurnDiagnostics {
                elapsed_ms: 0,
                usage: no_usage(),
                usage_estimated: false,
                tool_calls: 0,
                successful_tool_calls: 0,
                failed_tool_calls: 0,
                tool_duration_ms: 0,
            }),
    {
        TurnDiagnostics {
            elapsed_ms: 0,
            usage: Usage::default(),
            usage_estimated: false,
            tool_calls: 0,
            successful_tool_calls: 0,
            failed_tool_calls: 0,
            tool_duration_ms: 0,
        }
    }
}

impl TurnDiagnostics {
    /// Adds what one request took.
    pub fn add_usage(&mut self, usage: Usage, estimated: bool)
        ensures
            *final(self) == (TurnDiagnostics {
                usage: usage_sum(old(self).usage, usage_normalized(usage)),
                usage_estimated: old(self).usage_estimated || estimated,
                ..*old(self)
            }),
    {
        self.usage.add_assign(usage.normalized());
        self.usage_estimated = self.usage_estimated || estimated;
    }
}

/// The counters of all turns so far.
#[derive(Debug)]
pub struct AgentDiagnostics {
    pub turns: u64,
    pub successful_turns: u64,
    pub failed_turns: u64,
    pub tool_calls: u64,
    pub successful_tool_calls: u64,
    pub failed_tool_calls: u64,
    pub total_duration_ms: u64,
    pub tool_duration_ms: u64,
    pub usage: Usage,
    pub usage_estimated: bool,
    pub last_error: Option<String>,
}

impl Clone for AgentDiagnostics {
    fn clone(&self) -> (r: Self)
        ensures
            r == *self,
    {
        AgentDiagnostics {
            turns: self.turns,
            successful_turns: self.successful_turns,
            failed_turns: self.failed_turns,
            tool_calls: self.tool_calls,
            successful_tool_calls: self.successful_tool_calls,
            failed_tool_calls: self.failed_tool_calls,
            total_duration_ms: self.total_duration_ms,
            tool_duration_ms: self.tool_duration_ms,
            usage: self.usage,
            usage_estimated: self.usage_estimated,
            last_error: self.last_error.clone(),
        }
    }
}

impl Default for AgentDiagnostics {
    fn default() -> (r: Self)
        ensures
            r == (AgentDiagnostics {
                turns: 0,
                successful_turns: 0,
                failed_turns: 0,
                tool_calls: 0,
                successful_tool_calls: 0,
                failed_tool_calls: 0,
                total_duration_ms: 0,
                tool_duration_ms: 0,
                usage: no_usage(),
                usage_estimated: false,
                last_error: None,
            }),
    {
        AgentDiagnostics {
            turns: 0,
            successful_turns: 0,
            failed_turns: 0,
            tool_calls: 0,
            successful_tool_calls: 0,
            failed_tool_calls: 0,
            total_duration_ms: 0,
            tool_duration_ms: 0,
            usage: Usage::default(),
            usage_estimated: false,
            last_error: None,
        }
    }
}

impl AgentDiagnostics {
    /// Adds a turn that ended well.
    pub fn record_turn(&mut self, turn: &TurnDiagnostics)
        ensures
            *final(self) == (AgentDiagnostics {
                turns: capped_sum(old(self).turns, 1),
                successful_turns: capped_sum(old(self).successful_turns, 1),
                failed_turns: old(self).failed_turns,
                tool_calls: capped_sum(old(self).tool_calls, turn.tool_calls),
                successful_tool_calls: capped_sum(
                    old(self).successful_tool_calls,
                    turn.successful_tool_calls,
                ),
                failed_tool_calls: capped_sum(old(self).failed_tool_calls, turn.failed_tool_calls),
                total_duration_ms: capped_sum(old(self).total_duration_ms, turn.elapsed_ms),
                tool_duration_ms: capped_sum(old(self).tool_duration_ms, turn.tool_duration_ms),
                usage: usage_sum(old(self).usage, turn.usage),
                usage_estimated: old(self).usage_estimated || turn.usage_estimated,
                last_error: None,
            }),
    {
        self.turns = self.turns.saturating_add(1);
        self.successful_turns = self.successful_turns.saturating_add(1);
        self.tool_calls = self.tool_calls.saturating_add(turn.tool_calls);
        self.successful_tool_calls = self.successful_tool_calls.saturating_add(
            turn.successful_tool_calls,
        );
        self.failed_tool_calls = self.failed_tool_calls.saturating_add(turn.failed_tool_calls);
        self.total_duration_ms = self.total_duration_ms.saturating_add(turn.elapsed_ms);
        self.tool_duration_ms = self.tool_duration_ms.saturating_add(turn.tool_duration_ms);
        self.usage.add_assign(turn.usage);
        self.usage_estimated = self.usage_estimated || turn.usage_estimated;
        self.last_error = None;
    }

    /// Adds a turn that failed.
    pub fn record_failure(&mut self, elapsed_ms: u64, error: String)
        ensures
            *final(self) == (AgentDiagnostics {
                turns: capped_sum(old(self).turns, 1),
                failed_turns: capped_sum(old(self).failed_turns, 1),
                total_duration_ms: capped_sum(old(self).total_duration_ms, elapsed_ms),
                last_error: Some(error),
                ..*old(self)
            }),
    {
        self.turns = self.turns.saturating_add(1);
        self.failed_turns = self.failed_turns.saturating_add(1);
        self.total_duration_ms = self.total_duration_ms.saturating_add(elapsed_ms);
        self.last_error = Some(error);
    }
}

} // verus!
