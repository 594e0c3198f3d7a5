//! The model service: messages, responses and streams.
pub mod anthropic;
pub mod client;
pub mod native;
pub mod protocol;
pub mod stream;
pub mod whole;
