//! The notes pane: its state, independent of the terminal.

pub mod app;
pub mod rows;
