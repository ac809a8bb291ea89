//! Key handling for the explorer: what each key does to the application state.

use vstd::prelude::*;
use crate::graph::graph_nodes;
use crate::tui::app::{App, ActivePanel, ViewMode, after_layer_step, first_at_depth, after_next_cycle, search_matches};

verus! {

/// A key, as the explorer tells keys apart.
#[derive(Debug, Clone, Copy, PartialEq, Eq, Structural)]
pub enum Key {
    Char(char),
    Esc,
    Enter,
    Backspace,
    Tab,
    Up,
    Down,
    Left,
    Right,
    Other,
}

/// A key press: the key and whether Control was held.
#[derive(Debug, Clone, Copy, PartialEq, Eq, Structural)]
pub struct KeyPress {
    pub key: Key,
    pub control: bool,
}

/// The panel after `p` in the Tab order Graph, Details, Alerts.
pub open spec fn next_panel(p: ActivePanel) -> ActivePanel {
    match p {
        ActivePanel::Graph => ActivePanel::Details,
        ActivePanel::Details => ActivePanel::Alerts,
        ActivePanel::Alerts => ActivePanel::Graph,
    }
}

/// Whether the key press quits in any mode: Control-`c`.
pub open spec fn is_interrupt(press: KeyPress) -> bool {
    press.key == Key::Char('c') && press.control
}

/// The selection after moving up (`down` false) or down within the layer, on the graph
/// panel; elsewhere it stays.
pub open spec fn after_vertical(app: App, down: bool) -> App {
    if app.panel == ActivePanel::Graph {
        App { selected_node: after_layer_step(app.graph, app.selected_node, down), ..app }
    } else {
        app
    }
}

/// The state after a key press outside search mode. `q`, `Q`, Control-`c` and Esc quit;
/// Tab moves to the next panel; `g` and `a` (either case) show the graph and alerts
/// panels; on the graph panel the arrows, and `j`/`k` for down/up, move the selection
/// within the layer (up, down) or across layers (left, right); Enter shows the details of
/// the selected file; `d` shows dependents and `i` imports (either case; pressing again
/// goes back to normal); `c` jumps to the next cycle; `l` toggles layer colors; `?`
/// toggles help. Other keys change nothing. (`/`, which enters search mode, is stated in
/// `handles_key`.)
pub open spec fn after_key(app: App, press: KeyPress) -> App {
    match press.key {
        Key::Char(c) => if c == 'q' || c == 'Q' || (c == 'c' && press.control) {
            App { should_quit: true, ..app }
        } else if c == 'g' || c == 'G' {
            App { panel: ActivePanel::Graph, ..app }
        } else if c == 'a' || c == 'A' {
            App { panel: ActivePanel::Alerts, ..app }
        } else if c == 'd' || c == 'D' {
            App {
                mode: if app.mode == ViewMode::Dependents { ViewMode::Normal } else { ViewMode::Dependents },
                ..app
            }
        } else if c == 'i' || c == 'I' {
            App {
                mode: if app.mode == ViewMode::Imports { ViewMode::Normal } else { ViewMode::Imports },
                ..app
            }
        } else if c == 'c' {
            after_next_cycle(app)
        } else if c == 'l' {
            App { show_layer_colors: !app.show_layer_colors, ..app }
        } else if c == '?' {
            App { show_help: !app.show_help, ..app }
        } else if c == 'j' {
            after_vertical(app, true)
        } else if c == 'k' {
            after_vertical(app, false)
        } else {
            app
        },
        Key::Esc => App { should_quit: true, ..app },
        Key::Enter => if app.selected_node is Some {
            App { panel: ActivePanel::Details, details_scroll: 0, ..app }
        } else {
            app
        },
        Key::Tab => App { panel: next_panel(app.panel), ..app },
        Key::Up => after_vertical(app, false),
        Key::Down => after_vertical(app, true),
        Key::Left => if app.panel == ActivePanel::Graph {
            App {
                selected_node: match app.selected_node {
                    Some(c) => if graph_nodes(app.graph)[c as int].depth > 0 {
                        match first_at_depth(app.graph, graph_nodes(app.graph)[c as int].depth - 1) {
                            Some(x) => Some(x),
                            None => Some(c),
                        }
                    } else {
                        Some(c)
                    },
                    None => None,
                },
                ..app
            }
        } else {
            app
        },
        Key::Right => if app.panel == ActivePanel::Graph {
            App {
                selected_node: match app.selected_node {
                    Some(c) => match first_at_depth(app.graph, graph_nodes(app.graph)[c as int].depth + 1) {
                        Some(x) => Some(x),
                        None => Some(c),
                    },
                    None => None,
                },
                ..app
            }
        } else {
            app
        },
        Key::Backspace | Key::Other => app,
    }
}

/// `new` is `old` with the search query set to `q`: the results are the nodes whose path
/// contains `q`, case-insensitively, and the first of them, if any, is selected.
pub open spec fn query_set(old: App, new: App, q: Seq<char>) -> bool {
    &&& new == (App {
        search_query: new.search_query,
        search_results: new.search_results,
        selected_node: if search_matches(old.graph, q).len() > 0 {
            Some(search_matches(old.graph, q)[0])
        } else {
            old.selected_node
        },
        ..old
    })
    &&& new.search_query@ == q
    &&& new.search_results@ == search_matches(old.graph, q)
}

/// `new` is `old` in mode `mode` with an empty query and no results.
pub open spec fn query_cleared(old: App, new: App, mode: ViewMode) -> bool {
    &&& new == (App { mode, search_query: new.search_query, search_results: new.search_results, ..old })
    &&& new.search_query@.len() == 0
    &&& new.search_results@.len() == 0
}

/// How a key press changes the state. `/` enters search mode with an empty query. In
/// search mode a character (but Control-`c`, which quits) is added to the query,
/// Backspace removes the last one, Enter leaves for the details panel when there are
/// results and a selection, Esc leaves search mode, and other keys change nothing.
/// Elsewhere, see `after_key`.
pub open spec fn handles_key(old: App, new: App, press: KeyPress) -> bool {
    if old.mode == ViewMode::Search {
        match press.key {
            Key::Char(c) => if is_interrupt(press) {
                new == (App { should_quit: true, ..old })
            } else {
                query_set(old, new, old.search_query@.push(c))
            },
            Key::Backspace => query_set(
                old,
                new,
                if old.search_query@.len() > 0 { old.search_query@.drop_last() } else { Seq::<char>::empty() },
            ),
            Key::Enter => if old.search_results@.len() > 0 && old.selected_node is Some {
                &&& new == (App {
                    mode: ViewMode::Normal,
                    panel: ActivePanel::Details,
                    search_query: new.search_query,
                    search_results: new.search_results,
                    ..old
                })
                &&& new.search_query@.len() == 0
                &&& new.search_results@.len() == 0
            } else {
                new == old
            },
            Key::Esc => query_cleared(old, new, ViewMode::Normal),
            _ => new == old,
        }
    } else if press.key == Key::Char('/') {
        query_cleared(old, new, ViewMode::Search)
    } else {
        new == after_key(old, press)
    }
}

/// Handle a key press and update the app state; see `handles_key`. The selection must name
/// a node, whose depth is below `usize::MAX`, and the cycle position must be below
/// `usize::MAX`.
pub fn handle_key_event(app: &mut App, press: KeyPress)
    requires
        old(app).wf(),
        old(app).selected_node matches Some(c) ==> graph_nodes(old(app).graph)[c as int].depth < usize::MAX,
        old(app).cycle_index < usize::MAX,
    ensures
        handles_key(*old(app), *final(app), press),
{
    if app.mode == ViewMode::Search {
        match press.key {
            Key::Char(c) => {
                if c == 'c' && press.control {
                    app.quit();
                } else {
                    app.search_input(c);
                }
            },
            Key::Backspace => {
                let ghost q = app.search_query@;
                proof {
                    if q.len() > 0 {
                        assert(q.take(q.len() - 1) =~= q.drop_last());
                    }
                }
                app.search_backspace();
                proof {
                    if q.len() == 0 {
                        assert(app.search_query@ =~= Seq::<char>::empty());
                    }
                }
            },
            Key::Enter => {
                app.select_search_result();
            },
            Key::Esc => {
                app.exit_search_mode();
            },
            _ => {},
        }
        return;
    }
    match press.key {
        Key::Char(c) => {
            if c == 'q' || c == 'Q' || (c == 'c' && press.control) {
                app.quit();
            } else if c == '/' {
                app.enter_search_mode();
            } else if c == 'g' || c == 'G' {
                app.panel = ActivePanel::Graph;
            } else if c == 'a' || c == 'A' {
                app.panel = ActivePanel::Alerts;
            } else if c == 'd' || c == 'D' {
                app.enter_dependents_mode();
            } else if c == 'i' || c == 'I' {
                app.enter_imports_mode();
            } else if c == 'c' {
                app.jump_to_next_cycle();
            } else if c == 'l' {
                app.toggle_layer_colors();
            } else if c == '?' {
                app.toggle_help();
            } else if c == 'j' {
                if app.panel == ActivePanel::Graph {
                    app.select_next_in_layer();
                }
            } else if c == 'k' {
                if app.panel == ActivePanel::Graph {
                    app.select_prev_in_layer();
                }
            }
        },
        Key::Esc => {
            app.quit();
        },
        Key::Enter => {
            app.switch_to_details();
        },
        Key::Tab => {
            app.panel = match app.panel {
                ActivePanel::Graph => ActivePanel::Details,
                ActivePanel::Details => ActivePanel::Alerts,
                ActivePanel::Alerts => ActivePanel::Graph,
            };
        },
        Key::Up => {
            if app.panel == ActivePanel::Graph {
                app.select_prev_in_layer();
            }
        },
        Key::Down => {
            if app.panel == ActivePanel::Graph {
                app.select_next_in_layer();
            }
        },
        Key::Left => {
            if app.panel == ActivePanel::Graph {
                app.select_prev_layer();
            }
        },
        Key::Right => {
            if app.panel == ActivePanel::Graph {
                app.select_next_layer();
            }
        },
        Key::Backspace | Key::Other => {},
    }
}

} // verus!
