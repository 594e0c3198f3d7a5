//! The terminal user interface: its state, its keys and what it shows.
pub mod app;
pub mod command;
pub mod event;
pub mod host;
pub mod laws;
pub mod listing;
pub mod markdown;
pub mod panel;
pub mod reports;
pub mod showing;
pub mod style;
pub mod transcript;
pub mod ui;
pub mod wrap;
