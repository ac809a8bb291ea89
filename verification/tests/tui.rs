use dendrite::graph::analysis::analyze;
use dendrite::graph::{DepGraph, FileNode, GraphBuilder, Import, Layer};
use dendrite::tui::app::{visible_panels, ActivePanel, App, ViewMode};
use dendrite::tui::events::{handle_key_event, Key, KeyPress};
use dendrite::tui::graph_view::{truncate_filename, Canvas, Cell, Color, GraphView};
use dendrite::tui::layout::GraphLayout;

fn node(path: &str, depth: usize) -> FileNode {
    FileNode {
        path: path.to_string(),
        relative_path: path.to_string(),
        layer: Layer::Unknown,
        depth,
        summary: None,
        exports: vec![],
        loc: 10,
    }
}

#[test]
fn test_layout_empty_graph() {
    let graph: DepGraph = DepGraph::new();
    let layout = GraphLayout::compute(&graph);
    assert_eq!(layout.positions.len(), 0);
    assert_eq!(layout.bounds, (0, 0));
}

#[test]
fn test_layout_single_node() {
    let mut graph: DepGraph = DepGraph::new();
    graph.add_node(FileNode {
        path: "main.zig".to_string(),
        relative_path: "main.zig".to_string(),
        layer: Layer::Entry,
        depth: 0,
        summary: None,
        exports: vec![],
        loc: 10,
    });
    let layout = GraphLayout::compute(&graph);
    assert_eq!(layout.positions.len(), 1);
    assert!(layout.bounds.0 >= layout.node_width);
}

#[test]
fn test_layout_linear_chain() {
    let mut graph: DepGraph = DepGraph::new();
    let node_a = graph.add_node(node("a.zig", 0));
    let node_b = graph.add_node(node("b.zig", 1));
    let node_c = graph.add_node(node("c.zig", 2));
    graph.add_edge(node_a, node_b, Import { line: 1 });
    graph.add_edge(node_b, node_c, Import { line: 1 });
    let layout = GraphLayout::compute(&graph);
    assert_eq!(layout.positions.len(), 3);
    let pos_a = layout.get_position(node_a).unwrap();
    let pos_b = layout.get_position(node_b).unwrap();
    let pos_c = layout.get_position(node_c).unwrap();
    assert!(pos_a.0 < pos_b.0);
    assert!(pos_b.0 < pos_c.0);
}

#[test]
fn test_layout_same_depth_nodes() {
    let mut graph: DepGraph = DepGraph::new();
    graph.add_node(node("a.zig", 0));
    graph.add_node(node("b.zig", 0));
    let layout = GraphLayout::compute(&graph);
    assert_eq!(layout.positions.len(), 2);
    assert_eq!(layout.layers.len(), 1);
    assert_eq!(layout.layers[0].len(), 2);
}

#[test]
fn layout_positions_exactly() {
    let mut graph: DepGraph = DepGraph::new();
    graph.add_node(node("z.zig", 0));
    graph.add_node(node("b.zig", 1));
    graph.add_node(node("a.zig", 1));
    let layout = GraphLayout::compute(&graph);
    assert_eq!(layout.layers, vec![vec![0], vec![2, 1]]);
    assert_eq!(layout.positions, vec![Some((0, 0)), Some((32, 5)), Some((32, 0))]);
    assert_eq!(layout.bounds, (56, 8));
    assert_eq!(layout.get_node_center(1), Some((44, 6)));
    assert_eq!(layout.get_node_right(1), Some((56, 6)));
    assert_eq!(layout.get_node_left(1), Some((32, 6)));
    assert_eq!(layout.get_position(9), None);
}

#[test]
fn test_truncate_filename_no_truncation() {
    assert_eq!(truncate_filename("main.zig", 20), "main.zig");
}

#[test]
fn test_truncate_filename_exact_fit() {
    assert_eq!(truncate_filename("main.zig", 8), "main.zig");
}

#[test]
fn test_truncate_filename_truncated() {
    assert_eq!(truncate_filename("scheduler_interrupt_handler.zig", 20), "scheduler_interru...");
}

#[test]
fn test_truncate_filename_very_short() {
    assert_eq!(truncate_filename("main.zig", 3), "...");
}

fn sample_app() -> App {
    let mut builder = GraphBuilder::new("/p".to_string(), false);
    for (p, d) in [("main.zig", 0usize), ("b.zig", 1), ("a.zig", 1), ("c.zig", 2)] {
        builder.add_file(FileNode {
            path: format!("/p/{}", p),
            relative_path: p.to_string(),
            layer: Layer::Unknown,
            depth: d,
            summary: None,
            exports: vec![],
            loc: 1,
        });
    }
    let map = vec![
        ("/p/main.zig".to_string(), vec![("b.zig".to_string(), 1), ("a.zig".to_string(), 2)]),
        ("/p/b.zig".to_string(), vec![("c.zig".to_string(), 1)]),
        ("/p/c.zig".to_string(), vec![("b.zig".to_string(), 3)]),
    ];
    builder.add_edges(&map, &vec![]);
    let graph = builder.build();
    let analysis = analyze(&graph, 3);
    App::new(graph, analysis)
}

#[test]
fn app_starts_on_first_node() {
    let app = sample_app();
    assert_eq!(app.selected_node, Some(0));
    assert_eq!(app.mode, ViewMode::Normal);
    assert_eq!(app.panel, ActivePanel::Graph);
    assert!(!app.should_quit);
    assert!(app.show_layer_colors);
}

#[test]
fn layer_navigation_wraps_in_path_order_and_undoes() {
    let mut app = sample_app();
    app.selected_node = Some(1); // b.zig at depth 1; the layer in path order is a.zig, b.zig
    app.select_next_in_layer();
    assert_eq!(app.selected_node, Some(2));
    app.select_next_in_layer();
    assert_eq!(app.selected_node, Some(1));
    app.select_prev_in_layer();
    assert_eq!(app.selected_node, Some(2));
    app.select_next_in_layer();
    assert_eq!(app.selected_node, Some(1));
    app.select_next_layer();
    assert_eq!(app.selected_node, Some(3));
    app.select_prev_layer();
    assert_eq!(app.selected_node, Some(1));
    app.select_prev_layer();
    assert_eq!(app.selected_node, Some(0));
    app.select_prev_layer();
    assert_eq!(app.selected_node, Some(0));
}

#[test]
fn scrolling_is_clamped_and_saturating() {
    let mut app = sample_app();
    app.scroll_viewport(150, -30);
    assert_eq!(app.viewport_offset, (100, -30));
    app.scroll_details_up();
    assert_eq!(app.details_scroll, 0);
    app.scroll_details_down();
    assert_eq!(app.details_scroll, 1);
}

#[test]
fn alerts_wrap_and_jump() {
    let mut app = sample_app();
    assert_eq!(app.analysis.cycles.len(), 1);
    app.prev_alert();
    assert_eq!(app.selected_alert, 0);
    app.next_alert();
    assert_eq!(app.selected_alert, 0);
    app.panel = ActivePanel::Alerts;
    app.jump_to_selected_alert();
    assert_eq!(app.panel, ActivePanel::Graph);
    let first = app.analysis.cycles[0].nodes[0].clone();
    let sel = app.selected_node.unwrap();
    assert_eq!(app.graph.node(sel).relative_path, first);
}

#[test]
fn cycle_navigation_moves_through_cycle_files() {
    let mut app = sample_app();
    app.jump_to_next_cycle();
    assert_eq!(app.cycle_index, 1);
    let sel = app.selected_node.unwrap();
    let name = app.graph.node(sel).relative_path.clone();
    assert!(name == "b.zig" || name == "c.zig");
    app.jump_to_next_cycle();
    assert_eq!(app.cycle_index, 0);
}

#[test]
fn modes_and_toggles() {
    let mut app = sample_app();
    app.enter_imports_mode();
    assert_eq!(app.mode, ViewMode::Imports);
    app.enter_imports_mode();
    assert_eq!(app.mode, ViewMode::Normal);
    app.enter_dependents_mode();
    assert_eq!(app.mode, ViewMode::Dependents);
    app.toggle_help();
    assert!(app.show_help);
    app.toggle_layer_colors();
    assert!(!app.show_layer_colors);
    app.switch_to_details();
    assert_eq!(app.panel, ActivePanel::Details);
    assert_eq!(app.details_scroll, 0);
}

#[test]
fn search_is_case_insensitive_and_selects_first_match() {
    let mut app = sample_app();
    app.enter_search_mode();
    assert_eq!(app.mode, ViewMode::Search);
    app.search_input('B');
    assert_eq!(app.search_query, "B");
    assert_eq!(app.search_results, vec![1]);
    assert_eq!(app.selected_node, Some(1));
    app.search_backspace();
    assert_eq!(app.search_query, "");
    assert!(app.search_results.is_empty());
    app.search_input('.');
    assert_eq!(app.search_results, vec![0, 1, 2, 3]);
    app.select_search_result();
    assert_eq!(app.mode, ViewMode::Normal);
    assert_eq!(app.panel, ActivePanel::Details);
    assert!(app.search_query.is_empty());
}

#[test]
fn keys_switch_panels_navigate_and_quit() {
    let mut app = sample_app();
    let press = |key: Key| KeyPress { key, control: false };
    handle_key_event(&mut app, press(Key::Tab));
    assert_eq!(app.panel, ActivePanel::Details);
    handle_key_event(&mut app, press(Key::Char('a')));
    assert_eq!(app.panel, ActivePanel::Alerts);
    handle_key_event(&mut app, press(Key::Right));
    assert_eq!(app.selected_node, Some(0));
    handle_key_event(&mut app, press(Key::Char('G')));
    assert_eq!(app.panel, ActivePanel::Graph);
    handle_key_event(&mut app, press(Key::Right));
    assert_eq!(app.selected_node, Some(1));
    handle_key_event(&mut app, press(Key::Down));
    assert_eq!(app.selected_node, Some(2));
    handle_key_event(&mut app, press(Key::Char('c')));
    assert!(!app.should_quit);
    handle_key_event(&mut app, KeyPress { key: Key::Char('c'), control: true });
    assert!(app.should_quit);
}

#[test]
fn render_draws_boxes_and_arrows() {
    let mut graph: DepGraph = DepGraph::new();
    let a = graph.add_node(node("a.zig", 0));
    let b = graph.add_node(node("b.zig", 1));
    graph.add_edge(a, b, Import { line: 1 });
    let analysis = analyze(&graph, 3);
    let app = App::new(graph, analysis);
    let layout = GraphLayout::compute(&app.graph);
    let mut canvas = Canvas::blank(60, 4);
    GraphView::new(&app, &layout).render(&mut canvas);
    let row = |y: u16| -> String { (0..60).map(|x| canvas.cell(x, y).symbol).collect() };
    assert_eq!(row(0), format!("┌{}┐{}┌{}┐{}", "─".repeat(22), " ".repeat(8), "─".repeat(22), " ".repeat(4)));
    assert!(row(1).starts_with("│ a.zig"));
    assert_eq!(canvas.cell(31, 1).symbol, '▶');
    assert_eq!(canvas.cell(25, 1).symbol, '─');
    assert_eq!(canvas.cell(2, 1).fg, Color::Black);
    assert_eq!(canvas.cell(2, 1).bg, Color::Yellow);
    assert!(canvas.cell(0, 0).bold);
    assert_eq!(canvas.cell(32, 0).fg, Color::Gray);
    assert_eq!(canvas.cell(59, 3), Cell { symbol: ' ', fg: Color::Reset, bg: Color::Reset, bold: false });
}

#[test]
fn keys_follow_the_readme_table() {
    let mut app = sample_app();
    let press = |key: Key| KeyPress { key, control: false };
    handle_key_event(&mut app, press(Key::Char('c')));
    let sel = app.selected_node.unwrap();
    let name = app.graph.node(sel).relative_path.clone();
    assert!(name == "b.zig" || name == "c.zig");
    assert_eq!(app.cycle_index, 1 % 2);
    assert!(!app.should_quit);
    handle_key_event(&mut app, press(Key::Char('d')));
    assert_eq!(app.mode, ViewMode::Dependents);
    handle_key_event(&mut app, press(Key::Char('i')));
    assert_eq!(app.mode, ViewMode::Imports);
    handle_key_event(&mut app, press(Key::Char('i')));
    assert_eq!(app.mode, ViewMode::Normal);
    handle_key_event(&mut app, press(Key::Char('l')));
    assert!(!app.show_layer_colors);
    handle_key_event(&mut app, press(Key::Char('?')));
    assert!(app.show_help);
    handle_key_event(&mut app, press(Key::Enter));
    assert_eq!(app.panel, ActivePanel::Details);
    handle_key_event(&mut app, press(Key::Char('g')));
    assert_eq!(app.panel, ActivePanel::Graph);
}

#[test]
fn slash_starts_a_search_that_takes_typed_keys() {
    let mut app = sample_app();
    let press = |key: Key| KeyPress { key, control: false };
    handle_key_event(&mut app, press(Key::Char('/')));
    assert_eq!(app.mode, ViewMode::Search);
    handle_key_event(&mut app, press(Key::Char('C')));
    assert_eq!(app.search_query, "C");
    assert_eq!(app.search_results, vec![3]);
    assert_eq!(app.selected_node, Some(3));
    handle_key_event(&mut app, press(Key::Char('q')));
    assert!(!app.should_quit);
    assert_eq!(app.search_query, "Cq");
    assert!(app.search_results.is_empty());
    handle_key_event(&mut app, press(Key::Backspace));
    assert_eq!(app.search_query, "C");
    handle_key_event(&mut app, press(Key::Enter));
    assert_eq!(app.mode, ViewMode::Normal);
    assert_eq!(app.panel, ActivePanel::Details);
    handle_key_event(&mut app, press(Key::Char('/')));
    handle_key_event(&mut app, press(Key::Esc));
    assert_eq!(app.mode, ViewMode::Normal);
    assert!(!app.should_quit);
}

#[test]
fn panels_on_screen_follow_width_and_panel() {
    assert_eq!(visible_panels(ActivePanel::Graph, 120), (true, true, false));
    assert_eq!(visible_panels(ActivePanel::Graph, 79), (true, false, false));
    assert_eq!(visible_panels(ActivePanel::Details, 120), (false, true, false));
    assert_eq!(visible_panels(ActivePanel::Alerts, 40), (false, false, true));
}
