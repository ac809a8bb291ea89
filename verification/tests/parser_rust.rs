use dendrite::parser::rust::{
    extract_extern_crates, extract_mod_declarations, extract_pub_items, extract_rust_doc_comment,
    extract_use_statements, parse_rust_source, remove_comments_and_strings, use_imports_from_matches,
    ImportKind,
};

#[test]
fn test_extract_simple_use() {
    let source = r#"
use std::collections::HashMap;
use crate::parser::zig;
"#;
    let imports = extract_use_statements(source);
    assert_eq!(imports.len(), 2);
    assert_eq!(imports[0].path, "std::collections::HashMap");
    assert_eq!(imports[0].kind, ImportKind::Use);
    assert_eq!(imports[1].path, "crate::parser::zig");
}

#[test]
fn test_extract_nested_use() {
    let source = r#"
use std::collections::{HashMap, HashSet};
"#;
    let imports = extract_use_statements(source);
    assert_eq!(imports.len(), 2);
    assert!(imports.iter().any(|i| i.path == "std::collections::HashMap"));
    assert!(imports.iter().any(|i| i.path == "std::collections::HashSet"));
}

#[test]
fn test_extract_use_with_glob() {
    let source = r#"
use std::prelude::*;
use crate::parser::{zig, rust::*};
"#;
    let imports = extract_use_statements(source);
    assert!(imports.len() >= 2);
    assert!(imports.iter().any(|i| i.path.contains("*")));
}

#[test]
fn test_extract_use_with_pub() {
    let source = r#"
pub use std::collections::HashMap;
"#;
    let imports = extract_use_statements(source);
    assert_eq!(imports.len(), 1);
    assert_eq!(imports[0].path, "std::collections::HashMap");
}

#[test]
fn test_extract_use_ignores_comments() {
    let source = r#"
use std::collections::HashMap;
// use commented::out;
/* use blocked::out; */
"#;
    let imports = extract_use_statements(source);
    assert_eq!(imports.len(), 1);
    assert_eq!(imports[0].path, "std::collections::HashMap");
}

#[test]
fn test_extract_use_ignores_strings() {
    let source = r#"
use std::collections::HashMap;
let msg = "use fake::import;";
"#;
    let imports = extract_use_statements(source);
    assert_eq!(imports.len(), 1);
    assert_eq!(imports[0].path, "std::collections::HashMap");
}

#[test]
fn test_extract_mod_file_reference() {
    let source = r#"
mod parser;
mod graph;
pub mod config;
"#;
    let (file_mods, inline_mods) = extract_mod_declarations(source);
    assert_eq!(file_mods.len(), 3);
    assert_eq!(file_mods[0].path, "parser");
    assert_eq!(file_mods[0].kind, ImportKind::Mod);
    assert_eq!(file_mods[1].path, "graph");
    assert_eq!(file_mods[2].path, "config");
    assert!(inline_mods.is_empty());
}

#[test]
fn test_extract_mod_inline() {
    let source = r#"
mod tests {
    use super::*;
}

pub mod inner {
    pub fn foo() {}
}
"#;
    let (file_mods, inline_mods) = extract_mod_declarations(source);
    assert_eq!(inline_mods.len(), 2);
    assert!(inline_mods.contains(&"tests".to_string()));
    assert!(inline_mods.contains(&"inner".to_string()));
    assert!(file_mods.is_empty());
}

#[test]
fn test_extract_mod_mixed() {
    let source = r#"
mod parser;
mod tests {
    use super::*;
}
pub mod config;
"#;
    let (file_mods, inline_mods) = extract_mod_declarations(source);
    assert_eq!(file_mods.len(), 2);
    assert_eq!(inline_mods.len(), 1);
    assert_eq!(file_mods[0].path, "parser");
    assert_eq!(inline_mods[0], "tests");
}

#[test]
fn test_extract_extern_crate() {
    let source = r#"
extern crate serde;
extern crate serde_json;
"#;
    let imports = extract_extern_crates(source);
    assert_eq!(imports.len(), 2);
    assert_eq!(imports[0].path, "serde");
    assert_eq!(imports[0].kind, ImportKind::Extern);
    assert_eq!(imports[1].path, "serde_json");
}

#[test]
fn test_extract_extern_crate_empty() {
    let source = "use std::collections::HashMap;";
    let imports = extract_extern_crates(source);
    assert!(imports.is_empty());
}

#[test]
fn test_extract_pub_fn() {
    let source = r#"
pub fn add(a: i32, b: i32) -> i32 {
    a + b
}
"#;
    let exports = extract_pub_items(source);
    assert_eq!(exports.len(), 1);
    assert_eq!(exports[0], "add");
}

#[test]
fn test_extract_pub_struct() {
    let source = r#"
pub struct Config {
    pub name: String,
}
"#;
    let exports = extract_pub_items(source);
    assert_eq!(exports.len(), 1);
    assert_eq!(exports[0], "Config");
}

#[test]
fn test_extract_pub_enum() {
    let source = r#"
pub enum Status {
    Active,
    Inactive,
}
"#;
    let exports = extract_pub_items(source);
    assert_eq!(exports.len(), 1);
    assert_eq!(exports[0], "Status");
}

#[test]
fn test_extract_pub_trait() {
    let source = r#"
pub trait Parser {
    fn parse(&self, source: &str) -> Result<()>;
}
"#;
    let exports = extract_pub_items(source);
    assert_eq!(exports.len(), 1);
    assert_eq!(exports[0], "Parser");
}

#[test]
fn test_extract_pub_type() {
    let source = r#"
pub type Result<T> = std::result::Result<T, Error>;
"#;
    let exports = extract_pub_items(source);
    assert_eq!(exports.len(), 1);
    assert_eq!(exports[0], "Result");
}

#[test]
fn test_extract_pub_const() {
    let source = r#"
pub const MAX_SIZE: usize = 1024;
"#;
    let exports = extract_pub_items(source);
    assert_eq!(exports.len(), 1);
    assert_eq!(exports[0], "MAX_SIZE");
}

#[test]
fn test_extract_pub_static() {
    let source = r#"
pub static COUNTER: AtomicUsize = AtomicUsize::new(0);
"#;
    let exports = extract_pub_items(source);
    assert_eq!(exports.len(), 1);
    assert_eq!(exports[0], "COUNTER");
}

#[test]
fn test_extract_pub_crate_visibility() {
    let source = r#"
pub(crate) fn internal() {}
pub(super) struct Internal;
pub(in crate::parser) enum Mode { A, B }
"#;
    let exports = extract_pub_items(source);
    assert_eq!(exports.len(), 3);
    assert!(exports.contains(&"internal".to_string()));
    assert!(exports.contains(&"Internal".to_string()));
    assert!(exports.contains(&"Mode".to_string()));
}

#[test]
fn test_extract_pub_items_mixed() {
    let source = r#"
pub fn func() {}
pub struct Struct;
pub enum Enum { A }
pub trait Trait {}
pub type Type = i32;
pub const CONST: i32 = 42;
fn private() {}
"#;
    let exports = extract_pub_items(source);
    assert_eq!(exports.len(), 6);
    assert!(exports.contains(&"func".to_string()));
    assert!(exports.contains(&"Struct".to_string()));
    assert!(exports.contains(&"Enum".to_string()));
    assert!(exports.contains(&"Trait".to_string()));
    assert!(exports.contains(&"Type".to_string()));
    assert!(exports.contains(&"CONST".to_string()));
    assert!(!exports.contains(&"private".to_string()));
}

#[test]
fn test_extract_doc_comment_line_style() {
    let source = r#"//! This is module documentation.
//! Second line.

use std::collections::HashMap;
"#;
    let doc = extract_rust_doc_comment(source);
    assert_eq!(doc, Some("This is module documentation.\nSecond line.".to_string()));
}

#[test]
fn test_extract_doc_comment_block_style() {
    let source = r#"/*! This is module documentation. */

use std::collections::HashMap;
"#;
    let doc = extract_rust_doc_comment(source);
    assert_eq!(doc, Some("This is module documentation.".to_string()));
}

#[test]
fn test_extract_doc_comment_multiline_block() {
    let source = r#"/*!
 * Module documentation.
 * Second line.
 */

use std::collections::HashMap;
"#;
    let doc = extract_rust_doc_comment(source);
    assert_eq!(doc, Some("Module documentation. Second line.".to_string()));
}

#[test]
fn test_extract_doc_comment_no_doc() {
    let source = "use std::collections::HashMap;";
    let doc = extract_rust_doc_comment(source);
    assert_eq!(doc, None);
}

#[test]
fn test_extract_doc_comment_stops_at_code() {
    let source = r#"//! First line.
//! Second line.

//! This should not be captured.
"#;
    let doc = extract_rust_doc_comment(source);
    assert_eq!(doc, Some("First line.\nSecond line.".to_string()));
}

#[test]
fn test_remove_line_comments() {
    let source = r#"
use std::fs; // this is a comment
// use commented::out;
use std::io;
"#;
    let cleaned = remove_comments_and_strings(source);
    assert!(cleaned.contains("use std::fs"));
    assert!(!cleaned.contains("this is a comment"));
    assert!(!cleaned.contains("use commented::out"));
}

#[test]
fn test_remove_block_comments() {
    let source = r#"
use std::fs;
/* block comment
   use commented::out;
*/
use std::io;
"#;
    let cleaned = remove_comments_and_strings(source);
    assert!(cleaned.contains("use std::fs"));
    assert!(cleaned.contains("use std::io"));
    assert!(!cleaned.contains("block comment"));
    assert!(!cleaned.contains("use commented::out"));
}

#[test]
fn test_remove_string_literals() {
    let source = r#"
use std::fs;
let msg = "use fake::import;";
use std::io;
"#;
    let cleaned = remove_comments_and_strings(source);
    assert!(cleaned.contains("std"));
    assert!(cleaned.contains("fs"));
    assert!(cleaned.contains("io"));
}

#[test]
fn removal_of_each_kind_of_literal() {
    assert_eq!(remove_comments_and_strings("a /* x\ny */ b // z\nc"), "a \n b \nc");
    assert_eq!(remove_comments_and_strings("let s = \"q\\\"w\"; x"), "let s =  ; x");
    assert_eq!(remove_comments_and_strings("let c = 'a'; y"), "let c =  ; y");
    assert_eq!(remove_comments_and_strings("let r = r#\"a\"b\"#; z"), "let r =  ; z");
    assert_eq!(remove_comments_and_strings("let r = r\"a\nb\"; z"), "let r =  \n; z");
}

#[test]
fn nested_use_lines_and_simple_use_skipped_on_same_line() {
    let source = "use a::{b, c};\nuse d;\n";
    let imports = extract_use_statements(source);
    let paths: Vec<&str> = imports.iter().map(|i| i.path.as_str()).collect();
    assert_eq!(paths, vec!["a::b", "a::c", "d"]);
    assert_eq!(imports[0].line, 1);
    assert_eq!(imports[1].line, 1);
    assert_eq!(imports[2].line, 2);
}

#[test]
fn use_imports_are_built_from_the_matches() {
    let hay = b"use a::{b, ,c};";
    // a braced match: base "a" at 4..5, list "b, ,c" at 8..13
    let nested = vec![vec![Some((0usize, 14usize)), Some((4usize, 5usize)), Some((8usize, 13usize))]];
    // a plain match on the same line, "a::" at 4..7: skipped
    let simple = vec![vec![Some((0usize, 7usize)), Some((4usize, 7usize))]];
    let r = use_imports_from_matches(hay, &nested, &simple);
    let paths: Vec<&str> = r.iter().map(|i| i.path.as_str()).collect();
    assert_eq!(paths, vec!["a::b", "a::c"]);
}

#[test]
fn whole_file_parse() {
    let source = "//! Doc.\nuse a::b;\nextern crate c;\nmod d;\nmod e {\n}\npub fn f() {}\n";
    let file = parse_rust_source("/p/x.rs".to_string(), source);
    assert_eq!(file.path, "/p/x.rs");
    let paths: Vec<(&str, ImportKind)> = file.imports.iter().map(|i| (i.path.as_str(), i.kind)).collect();
    assert_eq!(paths, vec![("a::b", ImportKind::Use), ("c", ImportKind::Extern), ("d", ImportKind::Mod)]);
    assert_eq!(file.mods, vec!["e".to_string()]);
    assert_eq!(file.doc_comment, Some("Doc.".to_string()));
    assert_eq!(file.exports, vec!["f".to_string()]);
    assert_eq!(file.loc, 6);
}

#[test]
fn lifetimes_do_not_open_character_literals() {
    let source = "fn f(x: &'static str) {}\npub fn g() {}";
    assert_eq!(extract_pub_items(source), vec!["g".to_string()]);
    assert_eq!(remove_comments_and_strings("let c = '\\n'; f::<'a>()"), "let c =  ; f::<'a>()");
}

#[test]
fn loc_counts_code_lines_only() {
    let source = "//! Doc.\n\n/* block\n * more\n */\nfn f() {\n    // note\n    *x = 1;\n}\n";
    let file = parse_rust_source("/p/y.rs".to_string(), source);
    assert_eq!(file.loc, 3);
}

#[test]
fn non_ascii_text_before_a_use_line() {
    let imports = extract_use_statements("x\"é\"\nuse a;");
    assert_eq!(imports.len(), 1);
    assert_eq!(imports[0].path, "a");
    assert_eq!(imports[0].line, 2);
    assert_eq!(imports[0].kind, ImportKind::Use);
}

#[test]
fn loc_counts_text_outside_comments() {
    assert_eq!(parse_rust_source("/p/a.rs".to_string(), "/*\nx\n*/").loc, 0);
    assert_eq!(parse_rust_source("/p/b.rs".to_string(), "/* a */ let x = 1;").loc, 1);
    assert_eq!(parse_rust_source("/p/c.rs".to_string(), "let y = a\n    * 2;\n").loc, 2);
    assert_eq!(parse_rust_source("/p/d.rs".to_string(), "let s = \"a\n\n// b\";\n").loc, 2);
}

#[test]
fn cleaning_never_adds_length_or_lines() {
    let src = "let a = \"x\\\ny\"; // c\n/* d\ne */ let b = 'q';\n";
    let cleaned = remove_comments_and_strings(src);
    assert!(cleaned.chars().count() <= src.chars().count());
    assert_eq!(cleaned.matches('\n').count(), src.matches('\n').count() - 1);
    assert_eq!(cleaned, "let a =  ; \n\n let b =  ;\n");
}
