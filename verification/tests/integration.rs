use dendrite::graph::{FileNode, GraphBuilder, Layer};

const FIXTURE_MAIN: &str = "//! Entry point of the simple fixture.\nconst std = @import(\"std\");\nconst lib = @import(\"lib.zig\");\n\npub fn main() void {\n    lib.greet();\n}\n";
const FIXTURE_LIB: &str = "//! A small library for the simple fixture.\nconst std = @import(\"std\");\n\npub fn greet() void {\n    std.debug.print(\"hello\\n\", .{});\n}\n";

#[test]
fn fixture_sources_parse() {
    let imports = dendrite::parser::zig::extract_imports(FIXTURE_MAIN);
    assert_eq!(imports.len(), 2);
    assert_eq!(imports[1].target, "lib.zig");
    assert_eq!(imports[1].line, 3);
    assert_eq!(dendrite::parser::zig::extract_public_decls(FIXTURE_MAIN), vec!["main"]);
    assert_eq!(dendrite::parser::zig::extract_doc_comment(FIXTURE_MAIN), Some("Entry point of the simple fixture.".to_string()));
    assert_eq!(dendrite::parser::zig::extract_public_decls(FIXTURE_LIB), vec!["greet"]);
}

#[test]
fn fixture_graph_links_main_to_lib() {
    let mut builder = GraphBuilder::new("/fx".to_string(), false);
    let mut import_map = Vec::new();
    for (name, src) in [("main.zig", FIXTURE_MAIN), ("lib.zig", FIXTURE_LIB)] {
        let path = format!("/fx/{}", name);
        builder.add_file(FileNode {
            path: path.clone(),
            relative_path: name.to_string(),
            layer: Layer::from_path(name),
            depth: 0,
            summary: dendrite::parser::zig::extract_doc_comment(src),
            exports: dendrite::parser::zig::extract_public_decls(src),
            loc: 0,
        });
        let imports: Vec<(String, usize)> = dendrite::parser::zig::extract_imports(src)
            .into_iter()
            .filter(|i| !i.is_std)
            .map(|i| (i.target, i.line))
            .collect();
        if !imports.is_empty() {
            import_map.push((path, imports));
        }
    }
    builder.add_edges(&import_map, &vec![]);
    let graph = builder.build();
    assert_eq!(graph.node_count(), 2);
    assert_eq!(graph.edge_count(), 1);
}

#[test]
fn rust_and_zig_doc_readers_agree() {
    let src = "\n//! First.\n//!Second.\n\n//! not taken\nconst x = 1;\n";
    let rust = dendrite::parser::rust::extract_rust_doc_comment(src);
    let zig = dendrite::parser::zig::extract_doc_comment(src);
    assert_eq!(rust, Some("First.\nSecond.".to_string()));
    assert_eq!(rust, zig);
}
