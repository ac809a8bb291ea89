use dendrite::graph::analysis::{
    analyze, calculate_depths, calculate_fan_in, calculate_fan_out, find_cycles,
    find_entry_points, find_orphans, find_violations, is_layer_violation, layer_precedence,
    max_depth, reconstruct_cycle_path, find_deepest_path, LayerViolation,
};
use dendrite::graph::{DepGraph, FileNode, GraphBuilder, Layer};

fn build(nodes: &[(&str, Layer)], edges: &[(&str, &[(&str, usize)])]) -> DepGraph {
    let mut builder = GraphBuilder::new("/project".to_string(), false);
    for (name, layer) in nodes {
        builder.add_file(FileNode {
            path: format!("/project/{}", name),
            relative_path: name.to_string(),
            layer: *layer,
            depth: 0,
            summary: None,
            exports: vec![],
            loc: 10,
        });
    }
    let map: Vec<(String, Vec<(String, usize)>)> = edges
        .iter()
        .map(|(f, ts)| (format!("/project/{}", f), ts.iter().map(|(t, l)| (t.to_string(), *l)).collect()))
        .collect();
    builder.add_edges(&map, &vec![]);
    builder.build()
}

fn unknown(names: &[&'static str]) -> Vec<(&'static str, Layer)> {
    names.iter().map(|n| (*n, Layer::Unknown)).collect()
}

#[test]
fn test_no_cycles_in_dag() {
    let graph = build(&unknown(&["a.zig", "b.zig", "c.zig"]), &[("a.zig", &[("b.zig", 1)]), ("b.zig", &[("c.zig", 1)])]);
    let analysis = find_cycles(&graph);
    assert!(analysis.cycles.is_empty(), "DAG should have no cycles");
    assert!(analysis.cycle_edges.is_empty());
    assert!(analysis.nodes_in_cycles.is_empty());
}

#[test]
fn test_simple_cycle() {
    let graph = build(&unknown(&["a.zig", "b.zig"]), &[("a.zig", &[("b.zig", 5)]), ("b.zig", &[("a.zig", 3)])]);
    let analysis = find_cycles(&graph);
    assert_eq!(analysis.cycles.len(), 1, "Should find exactly 1 cycle");
    assert_eq!(analysis.nodes_in_cycles.len(), 2, "Both nodes should be in cycle");
    let cycle = &analysis.cycles[0];
    assert!(cycle.nodes.contains(&"a.zig".to_string()));
    assert!(cycle.nodes.contains(&"b.zig".to_string()));
    assert_eq!(cycle.edges.len(), 2, "Cycle should have 2 edges");
}

#[test]
fn test_complex_cycle() {
    let graph = build(
        &unknown(&["a.zig", "b.zig", "c.zig"]),
        &[("a.zig", &[("b.zig", 1)]), ("b.zig", &[("c.zig", 1)]), ("c.zig", &[("a.zig", 1)])],
    );
    let analysis = find_cycles(&graph);
    assert_eq!(analysis.cycles.len(), 1, "Should find exactly 1 cycle");
    assert_eq!(analysis.nodes_in_cycles.len(), 3, "All 3 nodes should be in cycle");
    let cycle = &analysis.cycles[0];
    assert_eq!(cycle.nodes.len(), 3, "Cycle should have 3 nodes");
    assert_eq!(cycle.edges.len(), 3, "Cycle should have 3 edges");
}

#[test]
fn test_multiple_cycles() {
    let graph = build(
        &unknown(&["a.zig", "b.zig", "c.zig", "d.zig"]),
        &[
            ("a.zig", &[("b.zig", 1)]),
            ("b.zig", &[("a.zig", 1)]),
            ("c.zig", &[("d.zig", 1)]),
            ("d.zig", &[("c.zig", 1)]),
        ],
    );
    let analysis = find_cycles(&graph);
    assert_eq!(analysis.cycles.len(), 2, "Should find 2 independent cycles");
    assert_eq!(analysis.nodes_in_cycles.len(), 4, "All 4 nodes should be in cycles");
}

#[test]
fn test_entry_points() {
    let graph = build(
        &unknown(&["main.zig", "lib.zig", "util.zig"]),
        &[("main.zig", &[("lib.zig", 1)]), ("lib.zig", &[("util.zig", 1)])],
    );
    let entry_points = find_entry_points(&graph);
    assert_eq!(entry_points.len(), 1, "Should have 1 entry point");
    assert_eq!(entry_points[0], "main.zig");
}

#[test]
fn test_depth_calculation() {
    let graph = build(
        &unknown(&["main.zig", "lib.zig", "util.zig"]),
        &[("main.zig", &[("lib.zig", 1)]), ("lib.zig", &[("util.zig", 1)])],
    );
    let depths = calculate_depths(&graph);
    assert_eq!(depths.iter().filter_map(|d| *d).max(), Some(2));
}

#[test]
fn test_fan_metrics() {
    let graph = build(
        &unknown(&["main.zig", "a.zig", "b.zig", "c.zig", "common.zig"]),
        &[
            ("main.zig", &[("a.zig", 1), ("b.zig", 2), ("c.zig", 3)]),
            ("a.zig", &[("common.zig", 1)]),
            ("b.zig", &[("common.zig", 1)]),
            ("c.zig", &[("common.zig", 1)]),
        ],
    );
    let fan_out = calculate_fan_out(&graph);
    let fan_in = calculate_fan_in(&graph);
    assert_eq!(fan_out[0].0, "main.zig");
    assert_eq!(fan_out[0].1, 3);
    assert_eq!(fan_in[0].0, "common.zig");
    assert_eq!(fan_in[0].1, 3);
}

#[test]
fn test_orphan_detection() {
    let graph = build(&unknown(&["main.zig", "lib.zig", "orphan.zig"]), &[("main.zig", &[("lib.zig", 1)])]);
    let orphans = find_orphans(&graph);
    assert_eq!(orphans.len(), 1, "Should find 1 orphan");
    assert_eq!(orphans[0], "orphan.zig");
}

#[test]
fn test_full_analysis() {
    let graph = build(&unknown(&["main.zig", "lib.zig"]), &[("main.zig", &[("lib.zig", 1)])]);
    let result = analyze(&graph, 3);
    assert!(result.cycles.is_empty());
    assert!(!result.entry_points.is_empty());
    assert!(!result.has_errors());
}

#[test]
fn test_no_violations_in_valid_hierarchy() {
    let graph = build(
        &[
            ("main.zig", Layer::Entry),
            ("shell/app.zig", Layer::App),
            ("kernel/core.zig", Layer::Core),
            ("platform/x86.zig", Layer::Platform),
        ],
        &[
            ("main.zig", &[("shell/app.zig", 1)]),
            ("shell/app.zig", &[("kernel/core.zig", 1)]),
            ("kernel/core.zig", &[("platform/x86.zig", 1)]),
        ],
    );
    let violations = find_violations(&graph);
    assert!(violations.is_empty(), "Valid hierarchy should have no violations");
}

#[test]
fn test_layer_violations_detected() {
    let graph = build(
        &[("drivers/uart.zig", Layer::Driver), ("shell/app.zig", Layer::App)],
        &[("drivers/uart.zig", &[("shell/app.zig", 5)])],
    );
    let violations = find_violations(&graph);
    assert_eq!(violations.len(), 1, "Should detect 1 violation");
    let v = &violations[0];
    assert_eq!(v.file, "drivers/uart.zig");
    assert_eq!(v.imports, "shell/app.zig");
    assert_eq!(v.from_layer, Layer::Driver);
    assert_eq!(v.to_layer, Layer::App);
    assert_eq!(v.line, 5);
}

#[test]
fn test_multiple_layer_violations() {
    let graph = build(
        &[("arch/x86_64.zig", Layer::Arch), ("main.zig", Layer::Entry), ("shell/app.zig", Layer::App)],
        &[("arch/x86_64.zig", &[("main.zig", 1), ("shell/app.zig", 2)])],
    );
    let violations = find_violations(&graph);
    assert_eq!(violations.len(), 2, "Should detect 2 violations");
}

#[test]
fn test_unknown_layer_no_violations() {
    let graph = build(&[("utils.zig", Layer::Unknown), ("main.zig", Layer::Entry)], &[("utils.zig", &[("main.zig", 1)])]);
    let violations = find_violations(&graph);
    assert!(violations.is_empty(), "Unknown layer should not trigger violations");
}

#[test]
fn test_same_layer_no_violations() {
    let graph = build(
        &[("kernel/scheduler.zig", Layer::Core), ("kernel/memory.zig", Layer::Core)],
        &[("kernel/scheduler.zig", &[("kernel/memory.zig", 1)])],
    );
    let violations = find_violations(&graph);
    assert!(violations.is_empty(), "Same layer imports should not trigger violations");
}

#[test]
fn test_violation_fix_suggestion() {
    let violation = LayerViolation::new(
        "drivers/uart.zig".to_string(),
        "shell/app.zig".to_string(),
        Layer::Driver,
        Layer::App,
        10,
    );
    let suggestion = violation.fix_suggestion();
    assert!(suggestion.contains("drivers/uart.zig"));
    assert!(suggestion.contains("shell/app.zig"));
    assert!(suggestion.contains("App"));
}

#[test]
fn test_analysis_with_violations() {
    let graph = build(
        &[("drivers/uart.zig", Layer::Driver), ("shell/app.zig", Layer::App)],
        &[("drivers/uart.zig", &[("shell/app.zig", 5)])],
    );
    let result = analyze(&graph, 3);
    assert!(!result.has_errors(), "No cycles = no errors");
    assert!(result.has_warnings(), "Should have warnings (violations)");
    assert_eq!(result.violations.len(), 1);
}

#[test]
fn violation_reason_and_fix_texts() {
    let v = LayerViolation::new("drivers/uart.zig".to_string(), "shell/app.zig".to_string(), Layer::Driver, Layer::App, 10);
    assert_eq!(v.reason, "Driver layer cannot import from App layer");
    assert_eq!(v.fix_suggestion(), "Move drivers/uart.zig to the App layer, or remove the import of shell/app.zig");
}

#[test]
fn layer_rules_follow_precedence() {
    assert_eq!(layer_precedence(Layer::Entry), 0);
    assert_eq!(layer_precedence(Layer::Arch), 5);
    assert_eq!(layer_precedence(Layer::Unknown), 6);
    assert!(is_layer_violation(Layer::Driver, Layer::App));
    assert!(!is_layer_violation(Layer::App, Layer::Driver));
    assert!(!is_layer_violation(Layer::Core, Layer::Core));
    assert!(!is_layer_violation(Layer::Unknown, Layer::Entry));
    assert!(!is_layer_violation(Layer::Arch, Layer::Unknown));
}

#[test]
fn cycle_fix_and_issue_count() {
    let graph = build(
        &[("drivers/a.zig", Layer::Driver), ("shell/b.zig", Layer::App)],
        &[("drivers/a.zig", &[("shell/b.zig", 5)]), ("shell/b.zig", &[("drivers/a.zig", 3)])],
    );
    let result = analyze(&graph, 1);
    assert_eq!(result.cycles.len(), 1);
    assert_eq!(result.violations.len(), 1);
    assert_eq!(result.issue_count(), 2);
    let fixes = result.fix_suggestions();
    assert_eq!(fixes.len(), 2);
    assert!(fixes[0].starts_with("Break cycle by removing import at "));
    assert!(fixes[1].starts_with("Move drivers/a.zig to the App layer"));
}

#[test]
fn deepest_path_and_max_depth() {
    let graph = build(
        &unknown(&["main.zig", "lib.zig", "util.zig"]),
        &[("main.zig", &[("lib.zig", 1)]), ("lib.zig", &[("util.zig", 1)])],
    );
    let depths = calculate_depths(&graph);
    assert_eq!(depths, vec![Some(0), Some(1), Some(2)]);
    assert_eq!(max_depth(&depths), 2);
    assert_eq!(find_deepest_path(&graph), vec!["main.zig".to_string(), "lib.zig".to_string(), "util.zig".to_string()]);
}

#[test]
fn high_fan_lists_keep_only_counts_at_threshold() {
    let graph = build(
        &unknown(&["main.zig", "a.zig", "b.zig"]),
        &[("main.zig", &[("a.zig", 1), ("b.zig", 2)])],
    );
    let result = analyze(&graph, 2);
    assert_eq!(result.high_fan_out, vec![("main.zig".to_string(), 2)]);
    assert!(result.high_fan_in.is_empty());
}

#[test]
fn cycle_path_follows_edges() {
    let edges = vec![
        ("a.zig".to_string(), "b.zig".to_string(), 1),
        ("b.zig".to_string(), "c.zig".to_string(), 2),
        ("c.zig".to_string(), "a.zig".to_string(), 3),
    ];
    let nodes = vec!["a.zig".to_string(), "b.zig".to_string(), "c.zig".to_string()];
    let path = reconstruct_cycle_path(&edges, &nodes);
    assert_eq!(path, vec!["a.zig".to_string(), "b.zig".to_string(), "c.zig".to_string()]);
}

#[test]
fn cycle_path_walks_along_edges() {
    let e = |a: &str, b: &str| (a.to_string(), b.to_string(), 1usize);
    let edges = vec![e("a", "c"), e("c", "b"), e("b", "a")];
    let nodes = vec!["a".to_string(), "b".to_string(), "c".to_string()];
    let path = reconstruct_cycle_path(&edges, &nodes);
    assert_eq!(path, vec!["a".to_string(), "c".to_string(), "b".to_string()]);
    for w in path.windows(2) {
        assert!(edges.iter().any(|(f, t, _)| *f == w[0] && *t == w[1]));
    }
    let mut sorted = path.clone();
    sorted.sort();
    assert_eq!(sorted, nodes);
}

#[test]
fn fan_ties_keep_node_order() {
    let graph = build(
        &unknown(&["c.zig", "a.zig", "b.zig", "d.zig"]),
        &[("c.zig", &[("d.zig", 1)]), ("a.zig", &[("d.zig", 1)]), ("b.zig", &[("d.zig", 1)])],
    );
    let fan = calculate_fan_out(&graph);
    let names: Vec<&str> = fan.iter().map(|(n, _)| n.as_str()).collect();
    assert_eq!(names, vec!["c.zig", "a.zig", "b.zig", "d.zig"]);
}

#[test]
fn one_cycle_per_component_with_its_edges() {
    let graph = build(
        &unknown(&["a.zig", "b.zig", "c.zig", "d.zig"]),
        &[("a.zig", &[("b.zig", 1)]), ("b.zig", &[("c.zig", 2)]), ("c.zig", &[("a.zig", 3), ("d.zig", 4)])],
    );
    let analysis = find_cycles(&graph);
    assert_eq!(analysis.cycles.len(), 1);
    assert_eq!(analysis.cycles[0].nodes.len(), 3);
    let mut edges: Vec<(String, String, usize)> = analysis.cycles[0].edges.clone();
    edges.sort();
    assert_eq!(
        edges,
        vec![
            ("a.zig".to_string(), "b.zig".to_string(), 1),
            ("b.zig".to_string(), "c.zig".to_string(), 2),
            ("c.zig".to_string(), "a.zig".to_string(), 3),
        ]
    );
}

#[test]
fn depth_is_the_longest_chain_of_imports() {
    let graph = build(
        &unknown(&["a.zig", "b.zig", "c.zig", "d.zig"]),
        &[("a.zig", &[("d.zig", 1), ("b.zig", 2)]), ("b.zig", &[("c.zig", 1)]), ("c.zig", &[("d.zig", 1)])],
    );
    let depths = calculate_depths(&graph);
    assert_eq!(depths, vec![Some(0), Some(1), Some(2), Some(3)]);
}
