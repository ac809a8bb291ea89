//! The state and rules of the interactive terminal explorer: the layout of the graph,
//! the application state and its key bindings, and the drawing of the graph as text.

pub mod layout;
pub mod app;
pub mod events;
pub mod graph_view;
