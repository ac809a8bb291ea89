use dendrite::graph::analysis::analyze;
use dendrite::graph::{DepGraph, FileNode, GraphBuilder, Layer};
use dendrite::output::json::{layer_to_string, CodebaseMap};
use dendrite::output::markdown::{
    build_alerts, build_file_entries, build_layer_info, build_overview, extract_project_name,
    generate_mermaid, layer_to_class, sanitize_mermaid_id, truncate_filename, CodebaseTemplate,
};

fn file(path: &str, layer: Layer, depth: usize, summary: Option<&str>, exports: &[&str], loc: usize) -> FileNode {
    FileNode {
        path: format!("/project/{}", path),
        relative_path: path.to_string(),
        layer,
        depth,
        summary: summary.map(|s| s.to_string()),
        exports: exports.iter().map(|s| s.to_string()).collect(),
        loc,
    }
}

fn imports(entries: &[(&str, &[(&str, usize)])]) -> Vec<(String, Vec<(String, usize)>)> {
    entries
        .iter()
        .map(|(f, ts)| (format!("/project/{}", f), ts.iter().map(|(t, l)| (t.to_string(), *l)).collect()))
        .collect()
}

fn create_test_graph() -> (DepGraph, dendrite::graph::analysis::AnalysisResult, CodebaseMap) {
    let mut builder = GraphBuilder::new("/project".to_string(), false);
    builder.add_file(file("main.zig", Layer::Entry, 0, Some("Entry point"), &["main"], 50));
    builder.add_file(file("kernel/scheduler.zig", Layer::Core, 1, None, &["schedule"], 200));
    builder.add_edges(&imports(&[("main.zig", &[("kernel/scheduler.zig", 5)])]), &vec![]);
    let graph = builder.build();
    let analysis = analyze(&graph, 3);
    let codemap = CodebaseMap::from_graph(&graph, "/project");
    (graph, analysis, codemap)
}

#[test]
fn test_layer_to_string() {
    assert_eq!(layer_to_string(Layer::Entry), "Entry");
    assert_eq!(layer_to_string(Layer::App), "App");
    assert_eq!(layer_to_string(Layer::Core), "Core");
    assert_eq!(layer_to_string(Layer::Platform), "Platform");
    assert_eq!(layer_to_string(Layer::Driver), "Driver");
    assert_eq!(layer_to_string(Layer::Arch), "Arch");
    assert_eq!(layer_to_string(Layer::Unknown), "Unknown");
}

#[test]
fn test_codemap_from_graph_empty() {
    let graph = dendrite::graph::DepGraph::new();
    let map = CodebaseMap::from_graph(&graph, "/project");
    assert_eq!(map.version, "1.0");
    assert_eq!(map.root_path, "/project");
    assert_eq!(map.nodes.len(), 0);
    assert_eq!(map.edges.len(), 0);
    assert_eq!(map.metadata.node_count, 0);
    assert_eq!(map.metadata.edge_count, 0);
    assert_eq!(map.metadata.max_depth, 0);
    assert_eq!(map.metadata.layers.len(), 0);
}

#[test]
fn test_codemap_from_graph_single_node() {
    let mut builder = GraphBuilder::new("/project".to_string(), false);
    builder.add_file(file("main.zig", Layer::Entry, 0, Some("Entry point"), &["main"], 42));
    let graph = builder.build();
    let map = CodebaseMap::from_graph(&graph, "/project");
    assert_eq!(map.nodes.len(), 1);
    assert_eq!(map.edges.len(), 0);
    assert_eq!(map.metadata.node_count, 1);
    assert_eq!(map.metadata.edge_count, 0);
    assert_eq!(map.metadata.max_depth, 0);
    assert_eq!(map.metadata.layers, vec!["Entry"]);
    let node_info = &map.nodes[0];
    assert_eq!(node_info.id, 0);
    assert_eq!(node_info.relative_path, "main.zig");
    assert_eq!(node_info.layer, "Entry");
    assert_eq!(node_info.depth, 0);
    assert_eq!(node_info.summary, Some("Entry point".to_string()));
    assert_eq!(node_info.exports, vec!["main"]);
    assert_eq!(node_info.loc, 42);
}

#[test]
fn test_codemap_from_graph_with_edges() {
    let mut builder = GraphBuilder::new("/project".to_string(), false);
    builder.add_file(file("main.zig", Layer::Entry, 0, None, &[], 10));
    builder.add_file(file("lib.zig", Layer::Unknown, 1, None, &[], 20));
    builder.add_edges(&imports(&[("main.zig", &[("lib.zig", 5)])]), &vec![]);
    let graph = builder.build();
    let map = CodebaseMap::from_graph(&graph, "/project");
    assert_eq!(map.nodes.len(), 2);
    assert_eq!(map.edges.len(), 1);
    assert_eq!(map.metadata.node_count, 2);
    assert_eq!(map.metadata.edge_count, 1);
    assert_eq!(map.metadata.max_depth, 1);
    let edge = &map.edges[0];
    assert_eq!(edge.from, 0);
    assert_eq!(edge.to, 1);
    assert_eq!(edge.line, 5);
}

#[test]
fn test_codemap_multiple_layers() {
    let mut builder = GraphBuilder::new("/project".to_string(), false);
    let nodes = vec![
        (Layer::Entry, "main.zig", 0),
        (Layer::App, "shell/main.zig", 1),
        (Layer::Core, "kernel/scheduler.zig", 2),
        (Layer::Driver, "drivers/uart.zig", 3),
    ];
    for (layer, path, depth) in nodes {
        builder.add_file(file(path, layer, depth, None, &[], 10));
    }
    let graph = builder.build();
    let map = CodebaseMap::from_graph(&graph, "/project");
    assert_eq!(map.metadata.max_depth, 3);
    assert_eq!(map.metadata.layers.len(), 4);
    assert!(map.metadata.layers.contains(&"Entry".to_string()));
    assert!(map.metadata.layers.contains(&"App".to_string()));
    assert!(map.metadata.layers.contains(&"Core".to_string()));
    assert!(map.metadata.layers.contains(&"Driver".to_string()));
}

#[test]
fn test_codemap_preserves_node_ids() {
    let mut builder = GraphBuilder::new("/project".to_string(), false);
    let idx_a = builder.add_file(file("a.zig", Layer::Unknown, 0, None, &[], 10));
    let idx_b = builder.add_file(file("b.zig", Layer::Unknown, 1, None, &[], 10));
    builder.add_edges(&imports(&[("a.zig", &[("b.zig", 1)])]), &vec![]);
    let graph = builder.build();
    let map = CodebaseMap::from_graph(&graph, "/project");
    assert_eq!(map.nodes[0].id, idx_a);
    assert_eq!(map.nodes[1].id, idx_b);
    assert_eq!(map.edges[0].from, idx_a);
    assert_eq!(map.edges[0].to, idx_b);
}

#[test]
fn codemap_layers_are_sorted_and_distinct() {
    let mut builder = GraphBuilder::new("/project".to_string(), false);
    builder.add_file(file("x.zig", Layer::Unknown, 0, None, &[], 1));
    builder.add_file(file("main.zig", Layer::Entry, 0, None, &[], 1));
    builder.add_file(file("arch/a.zig", Layer::Arch, 2, None, &[], 1));
    builder.add_file(file("y.zig", Layer::Unknown, 0, None, &[], 1));
    let graph = builder.build();
    let map = CodebaseMap::from_graph_at(&graph, "/project", "2024-01-01T00:00:00+00:00".to_string());
    assert_eq!(map.metadata.layers, vec!["Arch", "Entry", "Unknown"]);
    assert_eq!(map.generated_at, "2024-01-01T00:00:00+00:00");
    assert_eq!(map.metadata.max_depth, 2);
}

#[test]
fn test_extract_project_name() {
    assert_eq!(extract_project_name("/home/user/myproject"), "myproject");
    assert_eq!(extract_project_name("C:\\Users\\dev\\myapp"), "myapp");
    assert_eq!(extract_project_name("/project"), "project");
}

#[test]
fn project_name_edge_cases() {
    assert_eq!(extract_project_name("/"), "project");
    assert_eq!(extract_project_name("/a/b/"), "b");
    assert_eq!(extract_project_name("/a/b/."), "b");
    assert_eq!(extract_project_name("/a/.."), "project");
    assert_eq!(extract_project_name(""), "project");
}

#[test]
fn test_sanitize_mermaid_id() {
    assert_eq!(sanitize_mermaid_id("main.zig"), "main_zig");
    assert_eq!(sanitize_mermaid_id("kernel/scheduler.zig"), "kernel_scheduler_zig");
    assert_eq!(sanitize_mermaid_id("my-file.zig"), "my_file_zig");
}

#[test]
fn test_truncate_filename() {
    assert_eq!(truncate_filename("main.zig", 20), "main.zig");
    assert_eq!(truncate_filename("very_long_filename_here.zig", 15), "very_long_fi...");
}

#[test]
fn truncate_filename_keeps_the_file_name() {
    assert_eq!(truncate_filename("kernel/deep/scheduler.zig", 15), "scheduler.zig");
}

#[test]
fn test_layer_to_class() {
    assert_eq!(layer_to_class(Layer::Entry), "entry");
    assert_eq!(layer_to_class(Layer::Core), "core");
    assert_eq!(layer_to_class(Layer::Unknown), "arch");
}

#[test]
fn test_generate_mermaid_empty() {
    let graph = dendrite::graph::DepGraph::new();
    let analysis = analyze(&graph, 3);
    let mermaid = generate_mermaid(&graph, &analysis, 30);
    assert!(mermaid.contains("No files found"));
}

#[test]
fn test_generate_mermaid_simple() {
    let (graph, analysis, _) = create_test_graph();
    let mermaid = generate_mermaid(&graph, &analysis, 30);
    assert!(mermaid.contains("```mermaid"));
    assert!(mermaid.contains("flowchart LR"));
    assert!(mermaid.contains("main_zig"));
    assert!(mermaid.contains("kernel_scheduler_zig"));
    assert!(mermaid.contains(":::entry"));
    assert!(mermaid.contains(":::core"));
}

#[test]
fn mermaid_lines_exactly() {
    let (graph, analysis, _) = create_test_graph();
    let mermaid = generate_mermaid(&graph, &analysis, 30);
    let lines: Vec<&str> = mermaid.lines().collect();
    assert_eq!(lines[0], "```mermaid");
    assert_eq!(lines[9], "  main_zig[main.zig]:::entry");
    assert_eq!(lines[10], "  kernel_scheduler_zig[kernel/scheduler.zig]:::core");
    assert_eq!(lines[11], "  main_zig --> kernel_scheduler_zig");
    assert_eq!(lines[12], "```");
    assert_eq!(lines.len(), 13);
}

#[test]
fn mermaid_limits_nodes_but_keeps_cycles() {
    let mut builder = GraphBuilder::new("/project".to_string(), false);
    builder.add_file(file("a.zig", Layer::Unknown, 0, None, &[], 1));
    builder.add_file(file("b.zig", Layer::Unknown, 0, None, &[], 1));
    builder.add_file(file("c.zig", Layer::Unknown, 0, None, &[], 1));
    builder.add_edges(&imports(&[("a.zig", &[("b.zig", 1)]), ("b.zig", &[("a.zig", 2)])]), &vec![]);
    let graph = builder.build();
    let analysis = analyze(&graph, 3);
    let mermaid = generate_mermaid(&graph, &analysis, 1);
    assert!(mermaid.contains("  a_zig[a.zig]:::cycle"));
    assert!(mermaid.contains("  b_zig[b.zig]:::cycle"));
    assert!(!mermaid.contains("c_zig"));
    assert!(mermaid.ends_with("_Showing 2 of 3 files (top by connectivity)_"));
}

#[test]
fn test_build_overview() {
    let (graph, analysis, codemap) = create_test_graph();
    let overview = build_overview(&graph, &analysis, &codemap);
    assert_eq!(overview.file_count, 2);
    assert_eq!(overview.total_loc, 250);
    assert_eq!(overview.entry_point_count, 1);
    assert!(overview.entry_points.contains(&"main.zig".to_string()));
}

#[test]
fn overview_layer_counts_sorted() {
    let (graph, analysis, codemap) = create_test_graph();
    let overview = build_overview(&graph, &analysis, &codemap);
    let counts: Vec<(&str, usize)> = overview.layer_counts.iter().map(|c| (c.layer.as_str(), c.count)).collect();
    assert_eq!(counts, vec![("Core", 1), ("Entry", 1)]);
}

#[test]
fn test_build_file_entries() {
    let (graph, analysis, _) = create_test_graph();
    let entries = build_file_entries(&graph, &analysis);
    assert_eq!(entries.len(), 2);
    let main_entry = entries.iter().find(|e| e.path == "main.zig").unwrap();
    assert_eq!(main_entry.layer, "Entry");
    assert_eq!(main_entry.imports, 1);
    assert_eq!(main_entry.imported_by, 0);
}

#[test]
fn file_entries_sorted_by_path() {
    let (graph, analysis, _) = create_test_graph();
    let entries = build_file_entries(&graph, &analysis);
    assert_eq!(entries[0].path, "kernel/scheduler.zig");
    assert_eq!(entries[1].path, "main.zig");
    assert_eq!(entries[0].imported_by, 1);
}

#[test]
fn test_build_layer_info() {
    let layers = build_layer_info();
    assert_eq!(layers.len(), 6);
    assert_eq!(layers[0].name, "Entry");
    assert_eq!(layers[0].precedence, 0);
}

#[test]
fn alerts_for_cycles_and_violations() {
    let mut builder = GraphBuilder::new("/project".to_string(), false);
    builder.add_file(file("drivers/a.zig", Layer::Driver, 0, None, &[], 1));
    builder.add_file(file("shell/b.zig", Layer::App, 0, None, &[], 1));
    builder.add_edges(
        &imports(&[("drivers/a.zig", &[("shell/b.zig", 4)]), ("shell/b.zig", &[("drivers/a.zig", 9)])]),
        &vec![],
    );
    let graph = builder.build();
    let analysis = analyze(&graph, 3);
    let alerts = build_alerts(&analysis);
    assert_eq!(alerts.len(), 2);
    assert_eq!(alerts[0].severity, "error");
    assert_eq!(alerts[0].alert_type, "cycle");
    assert!(alerts[0].message.starts_with("Circular dependency: "));
    assert_eq!(alerts[0].details.len(), 2);
    assert!(alerts[0].fix.starts_with("Break cycle by removing import at "));
    assert_eq!(alerts[1].severity, "warning");
    assert_eq!(alerts[1].message, "Layer violation: drivers/a.zig (Driver) imports shell/b.zig (App)");
    assert_eq!(alerts[1].details, vec!["drivers/a.zig:4".to_string()]);
    let fixes: Vec<String> = alerts.iter().map(|a| a.fix.clone()).collect();
    assert_eq!(fixes, analysis.fix_suggestions());
}

#[test]
fn test_codebase_template_from_graph() {
    let (graph, analysis, codemap) = create_test_graph();
    let template = CodebaseTemplate::from_graph(&graph, &analysis, &codemap);
    assert_eq!(template.project_name, "project");
    assert_eq!(template.overview.file_count, 2);
    assert!(!template.mermaid_diagram.is_empty());
    assert_eq!(template.files.len(), 2);
    assert!(!template.has_alerts);
}

#[test]
fn mermaid_shows_the_best_connected_nodes() {
    let mut builder = GraphBuilder::new("/project".to_string(), false);
    for p in ["a.zig", "b.zig", "c.zig", "d.zig", "e.zig"] {
        builder.add_file(file(p, Layer::Unknown, 0, None, &[], 1));
    }
    builder.add_edges(
        &imports(&[("a.zig", &[("b.zig", 1)]), ("b.zig", &[("c.zig", 1)]), ("c.zig", &[("d.zig", 1)]), ("d.zig", &[("e.zig", 1)])]),
        &vec![],
    );
    let graph = builder.build();
    let analysis = analyze(&graph, 3);
    let diagram = generate_mermaid(&graph, &analysis, 2);
    let shown: Vec<&str> = diagram.lines().filter(|l| l.contains(":::")).collect();
    assert_eq!(shown.len(), 2);
    assert!(shown[0].starts_with("  b_zig[") && shown[1].starts_with("  c_zig["));
    let edges: Vec<&str> = diagram.lines().filter(|l| l.contains(" --> ")).collect();
    assert_eq!(edges, vec!["  b_zig --> c_zig"]);
}
