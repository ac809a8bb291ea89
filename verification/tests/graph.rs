use dendrite::graph::{is_std_import, FileNode, GraphBuilder, Layer};

fn node(name: &str, layer: Layer) -> FileNode {
    FileNode {
        path: format!("/project/{}", name),
        relative_path: name.to_string(),
        layer,
        depth: 0,
        summary: None,
        exports: vec![],
        loc: 10,
    }
}

fn imports(entries: &[(&str, &[(&str, usize)])]) -> Vec<(String, Vec<(String, usize)>)> {
    entries
        .iter()
        .map(|(file, targets)| {
            (
                format!("/project/{}", file),
                targets.iter().map(|(t, l)| (t.to_string(), *l)).collect(),
            )
        })
        .collect()
}

#[test]
fn test_layer_from_path_entry() {
    assert_eq!(Layer::from_path("main.zig"), Layer::Entry);
}

#[test]
fn test_layer_from_path_app() {
    assert_eq!(Layer::from_path("init.zig"), Layer::App);
    assert_eq!(Layer::from_path("shell/main.zig"), Layer::App);
    assert_eq!(Layer::from_path("shell/commands.zig"), Layer::App);
}

#[test]
fn test_layer_from_path_core() {
    assert_eq!(Layer::from_path("kernel/scheduler.zig"), Layer::Core);
    assert_eq!(Layer::from_path("memory/allocator.zig"), Layer::Core);
}

#[test]
fn test_layer_from_path_platform() {
    assert_eq!(Layer::from_path("platform/x86.zig"), Layer::Platform);
    assert_eq!(Layer::from_path("exceptions.zig"), Layer::Platform);
}

#[test]
fn test_layer_from_path_driver() {
    assert_eq!(Layer::from_path("drivers/uart.zig"), Layer::Driver);
}

#[test]
fn test_layer_from_path_arch() {
    assert_eq!(Layer::from_path("arch/x86_64.zig"), Layer::Arch);
}

#[test]
fn test_layer_from_path_unknown() {
    assert_eq!(Layer::from_path("utils.zig"), Layer::Unknown);
    assert_eq!(Layer::from_path("lib/helper.zig"), Layer::Unknown);
}

#[test]
fn test_layer_from_path_windows_separator() {
    assert_eq!(Layer::from_path("kernel\\scheduler.zig"), Layer::Core);
    assert_eq!(Layer::from_path("shell\\commands.zig"), Layer::App);
}

#[test]
fn test_is_std_import() {
    assert!(is_std_import("std"));
    assert!(is_std_import("builtin"));
    assert!(is_std_import("std.debug"));
    assert!(!is_std_import("stdlib.zig"));
    assert!(!is_std_import("my_std.zig"));
    assert!(!is_std_import("kernel/std.zig"));
}

#[test]
fn test_graph_builder_new() {
    let builder = GraphBuilder::new("/project".to_string(), true);
    assert_eq!(builder.project_root(), "/project");
    assert!(builder.include_std());
    assert_eq!(builder.graph().node_count(), 0);
    assert_eq!(builder.graph().edge_count(), 0);
}

#[test]
fn test_graph_builder_add_file() {
    let mut builder = GraphBuilder::new("/project".to_string(), false);
    let idx = builder.add_file(node("main.zig", Layer::Entry));
    assert_eq!(builder.graph().node_count(), 1);
    let g = builder.graph();
    assert_eq!(g.node(idx).relative_path, "main.zig");
    assert_eq!(g.node(idx).layer, Layer::Entry);
}

#[test]
fn test_graph_builder_linear_chain() {
    let mut builder = GraphBuilder::new("/project".to_string(), false);
    builder.add_file(node("a.zig", Layer::Unknown));
    builder.add_file(node("b.zig", Layer::Unknown));
    builder.add_file(node("c.zig", Layer::Unknown));
    let map = imports(&[("a.zig", &[("b.zig", 1)]), ("b.zig", &[("c.zig", 1)])]);
    builder.add_edges(&map, &vec![]);
    let graph = builder.build();
    assert_eq!(graph.node_count(), 3);
    assert_eq!(graph.edge_count(), 2);
}

#[test]
fn test_graph_builder_diamond_pattern() {
    let mut builder = GraphBuilder::new("/project".to_string(), false);
    for n in ["a.zig", "b.zig", "c.zig", "d.zig"] {
        builder.add_file(node(n, Layer::Unknown));
    }
    let map = imports(&[
        ("a.zig", &[("b.zig", 1), ("c.zig", 2)]),
        ("b.zig", &[("d.zig", 1)]),
        ("c.zig", &[("d.zig", 1)]),
    ]);
    builder.add_edges(&map, &vec![]);
    let graph = builder.build();
    assert_eq!(graph.node_count(), 4);
    assert_eq!(graph.edge_count(), 4);
}

#[test]
fn test_graph_builder_disconnected_components() {
    let mut builder = GraphBuilder::new("/project".to_string(), false);
    for n in ["a.zig", "b.zig", "c.zig", "d.zig"] {
        builder.add_file(node(n, Layer::Unknown));
    }
    let map = imports(&[("a.zig", &[("b.zig", 1)]), ("c.zig", &[("d.zig", 1)])]);
    builder.add_edges(&map, &vec![]);
    let graph = builder.build();
    assert_eq!(graph.node_count(), 4);
    assert_eq!(graph.edge_count(), 2);
}

#[test]
fn test_graph_builder_unresolved_imports() {
    let mut builder = GraphBuilder::new("/project".to_string(), false);
    builder.add_file(node("a.zig", Layer::Unknown));
    let map = imports(&[("a.zig", &[("missing.zig", 1)])]);
    builder.add_edges(&map, &vec![]);
    assert_eq!(builder.unresolved_imports().len(), 1);
    assert_eq!(builder.unresolved_imports()[0].target, "missing.zig");
    assert_eq!(builder.unresolved_imports()[0].line, 1);
}

#[test]
fn test_graph_builder_exclude_std() {
    let mut builder = GraphBuilder::new("/project".to_string(), false);
    builder.add_file(node("a.zig", Layer::Unknown));
    let map = imports(&[("a.zig", &[("std", 1), ("builtin", 2)])]);
    builder.add_edges(&map, &vec![]);
    let graph = builder.build();
    assert_eq!(graph.node_count(), 1);
    assert_eq!(graph.edge_count(), 0);
}

#[test]
fn test_graph_builder_include_std() {
    let mut builder = GraphBuilder::new("/project".to_string(), true);
    builder.add_file(node("a.zig", Layer::Unknown));
    let map = imports(&[("a.zig", &[("std", 1)])]);
    builder.add_edges(&map, &vec![]);
    assert_eq!(builder.unresolved_imports().len(), 1);
}

#[test]
fn node_index_finds_added_files() {
    let mut builder = GraphBuilder::new("/project".to_string(), false);
    let a = builder.add_file(node("a.zig", Layer::Unknown));
    let b = builder.add_file(node("b.zig", Layer::Unknown));
    assert_eq!(builder.node_index("/project/a.zig"), Some(a));
    assert_eq!(builder.node_index("/project/b.zig"), Some(b));
    assert_eq!(builder.node_index("/project/c.zig"), None);
}

#[test]
fn import_candidates_try_source_dir_then_root() {
    let builder = GraphBuilder::new("/project".to_string(), false);
    let c = builder.import_candidates("/project/kernel/sched.zig", "mem.zig");
    assert_eq!(c, vec!["/project/kernel/mem.zig".to_string(), "/project/mem.zig".to_string()]);
    assert!(builder.import_candidates("/project/a.zig", "std").is_empty());
}

#[test]
fn imports_found_on_disk_are_resolved_through_the_probe() {
    let mut builder = GraphBuilder::new("/project".to_string(), false);
    builder.add_file(node("a.zig", Layer::Unknown));
    builder.add_file(node("lib/b.zig", Layer::Unknown));
    // "b.zig" next to a.zig does not exist; under the root it exists and is canonical
    let probe = vec![("/project/b.zig".to_string(), Some("/project/lib/b.zig".to_string()))];
    let map = imports(&[("a.zig", &[("b.zig", 7)])]);
    builder.add_edges(&map, &probe);
    let graph = builder.build();
    assert_eq!(graph.edge_count(), 1);
    let e = &graph.raw_edges()[0];
    assert_eq!(e.2.line, 7);
}

#[test]
fn layer_names_as_text() {
    assert_eq!(Layer::Entry.to_string(), "Entry");
    assert_eq!(Layer::Unknown.name(), "Unknown");
}

#[test]
fn add_file_sets_the_layer_from_the_path() {
    let mut builder = GraphBuilder::new("/project".to_string(), false);
    let idx = builder.add_file(FileNode {
        path: "/project/drivers/uart.zig".to_string(),
        relative_path: "drivers/uart.zig".to_string(),
        layer: Layer::Unknown,
        depth: 0,
        summary: None,
        exports: vec![],
        loc: 1,
    });
    assert_eq!(builder.graph().node(idx).layer, Layer::Driver);
}

#[test]
fn every_kept_import_becomes_an_edge_or_unresolved() {
    let mut builder = GraphBuilder::new("/project".to_string(), false);
    builder.add_file(node("a.zig", Layer::Unknown));
    builder.add_file(node("b.zig", Layer::Unknown));
    let map = imports(&[
        ("a.zig", &[("b.zig", 1), ("missing.zig", 2), ("std", 3)]),
        ("ghost.zig", &[("b.zig", 1)]),
    ]);
    builder.add_edges(&map, &vec![]);
    let unresolved = builder.unresolved_imports().len();
    assert_eq!(builder.graph().edge_count() + unresolved, 2);
    assert_eq!(unresolved, 1);
    assert_eq!(builder.unresolved_imports()[0].source_file, "/project/a.zig");
    assert_eq!(builder.unresolved_imports()[0].line, 2);
    let edges = builder.graph().raw_edges();
    assert_eq!(edges.len(), 1);
    assert_eq!((edges[0].0, edges[0].1, edges[0].2.line), (0, 1, 1));
}
