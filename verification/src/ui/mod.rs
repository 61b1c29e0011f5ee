//! Presenting the results.
//!
//! Nothing here is consulted by the engine: the display depends on the model,
//! never the other way round.

pub mod app;
pub mod json;
pub mod plain;
pub mod render;
pub mod tui;

pub use app::AppState;
