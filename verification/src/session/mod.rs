//! Durable sessions: an append-only log of events, and what it projects to.
pub mod branches;
pub mod coherence;
pub mod compaction;
pub mod conversation;
pub mod deeds;
pub mod durable;
pub mod event;
pub mod finding;
pub mod forks;
pub mod handover;
pub mod laws;
pub mod log;
pub mod manager;
pub mod model;
pub mod projection;
pub mod record;
pub mod recovery;
pub mod tree;
