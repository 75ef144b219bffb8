//! Reads a tree of Markdown notes by its links.

pub mod config;
pub mod editor;
pub mod graph;
pub mod offsets;
pub mod order;
pub mod herdr;
pub mod index;
pub mod launch;
pub mod lines;
pub mod markdown;
pub mod parse;
pub mod paths;
pub mod render;
pub mod search;
pub mod peek;
pub mod scan;
pub mod send;
pub mod text;
pub mod tui;
pub mod watch;
pub mod markup;
pub mod cli;
pub mod tags;
