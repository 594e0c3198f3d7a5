//! The agent: turns of a conversation in which a model may call tools.
pub mod autonomous;
pub mod control;
pub mod diagnostics;
pub mod event;
pub mod laws;
pub mod prompt;
pub mod result;
pub mod runtime;
pub mod turn;
