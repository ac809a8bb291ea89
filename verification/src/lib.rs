//! Dendrite: codebase mapping and dependency analysis.

pub mod graph;
pub mod text;
pub mod pattern;
pub mod paths;
pub mod parser;
pub mod output;
pub mod tui;
pub mod discovery;
