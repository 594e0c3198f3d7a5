//! Noya: the core of a coding agent that works on repository tasks.
//!
//! The crate holds what the agent decides and computes: durable sessions and
//! their projections, background jobs, the model protocol, tool rules, and the
//! terminal interface's state. Reading and writing files, talking to a model
//! service and drawing on a terminal belong to the program around it.
pub mod agent;
pub mod cli;
pub mod daemon;
pub mod error;
pub mod ids;
pub mod job;
pub mod json;
pub mod llm;
pub mod model;
pub mod order;
pub mod paths;
pub mod pieces;
pub mod seqs;
pub mod session;
pub mod skills;
pub mod skills_laws;
pub mod text;
pub mod text_laws;
pub mod tools;
pub mod tui;
