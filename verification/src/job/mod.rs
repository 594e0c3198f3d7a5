//! Jobs: work that goes on in the background.
pub mod laws;
pub mod life;
pub mod manager;
pub mod model;
pub mod worker;
