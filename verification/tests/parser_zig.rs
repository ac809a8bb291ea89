use dendrite::parser::zig::{extract_doc_comment, extract_imports, extract_public_decls, imports_from_matches, mask_comments_and_strings};

#[test]
fn test_extract_imports_single_import() {
    let source = r#"const std = @import("std");"#;
    let imports = extract_imports(source);
    assert_eq!(imports.len(), 1);
    assert_eq!(imports[0].target, "std");
    assert_eq!(imports[0].line, 1);
    assert!(imports[0].is_std);
}

#[test]
fn test_extract_imports_multiple_imports() {
    let source = r#"
const std = @import("std");
const scheduler = @import("scheduler.zig");
const memory = @import("kernel/memory.zig");
"#;
    let imports = extract_imports(source);
    assert_eq!(imports.len(), 3);
    assert_eq!(imports[0].target, "std");
    assert_eq!(imports[0].line, 2);
    assert!(imports[0].is_std);
    assert_eq!(imports[1].target, "scheduler.zig");
    assert_eq!(imports[1].line, 3);
    assert!(!imports[1].is_std);
    assert_eq!(imports[2].target, "kernel/memory.zig");
    assert_eq!(imports[2].line, 4);
    assert!(!imports[2].is_std);
}

#[test]
fn test_extract_imports_multiline_source() {
    let source = r#"
// File header
const std = @import("std");

pub fn main() void {
    const lib = @import("lib.zig");
}
"#;
    let imports = extract_imports(source);
    assert_eq!(imports.len(), 2);
    assert_eq!(imports[0].target, "std");
    assert_eq!(imports[0].line, 3);
    assert_eq!(imports[1].target, "lib.zig");
    assert_eq!(imports[1].line, 6);
}

#[test]
fn test_extract_imports_in_line_comment() {
    let source = r#"
const std = @import("std");
// const fake = @import("fake.zig");
const real = @import("real.zig");
"#;
    let imports = extract_imports(source);
    assert_eq!(imports.len(), 2);
    assert_eq!(imports[0].target, "std");
    assert_eq!(imports[1].target, "real.zig");
    assert!(!imports.iter().any(|i| i.target == "fake.zig"));
}

#[test]
fn test_extract_imports_in_block_comment() {
    let source = r#"
const std = @import("std");
/*
 * const fake = @import("fake.zig");
 * More comments
 */
const real = @import("real.zig");
"#;
    let imports = extract_imports(source);
    assert_eq!(imports.len(), 2);
    assert_eq!(imports[0].target, "std");
    assert_eq!(imports[1].target, "real.zig");
    assert!(!imports.iter().any(|i| i.target == "fake.zig"));
}

#[test]
fn test_extract_imports_in_string_literal() {
    let source = r#"
const std = @import("std");
const msg = "This is not an import: @import(\"fake.zig\")";
const real = @import("real.zig");
"#;
    let imports = extract_imports(source);
    assert_eq!(imports.len(), 2);
    assert_eq!(imports[0].target, "std");
    assert_eq!(imports[1].target, "real.zig");
    assert!(!imports.iter().any(|i| i.target == "fake.zig"));
}

#[test]
fn test_extract_imports_std_detection() {
    let source = r#"
const std = @import("std");
const builtin = @import("builtin");
const local = @import("local.zig");
"#;
    let imports = extract_imports(source);
    assert_eq!(imports.len(), 3);
    assert!(imports[0].is_std);
    assert!(!imports[1].is_std);
    assert!(!imports[2].is_std);
}

#[test]
fn test_extract_imports_nested_string_escapes() {
    let source = r#"
const std = @import("std");
const escaped = "String with \" and @import(\"fake.zig\")";
const real = @import("real.zig");
"#;
    let imports = extract_imports(source);
    assert_eq!(imports.len(), 2);
    assert_eq!(imports[0].target, "std");
    assert_eq!(imports[1].target, "real.zig");
}

#[test]
fn test_extract_imports_empty_source() {
    let source = "";
    let imports = extract_imports(source);
    assert_eq!(imports.len(), 0);
}

#[test]
fn test_extract_imports_no_imports() {
    let source = r#"
pub fn main() void {
    // No imports here
}
"#;
    let imports = extract_imports(source);
    assert_eq!(imports.len(), 0);
}

#[test]
fn test_extract_imports_complex_mixed_content() {
    let source = r#"
const std = @import("std"); // Real import
// Fake: @import("comment.zig")
/* Block: @import("block.zig") */
const msg = "@import(\"string.zig\")";
const real2 = @import("real2.zig");
"#;
    let imports = extract_imports(source);
    assert_eq!(imports.len(), 2);
    assert_eq!(imports[0].target, "std");
    assert_eq!(imports[1].target, "real2.zig");
}

#[test]
fn test_extract_imports_inline_comment_after_import() {
    let source = r#"const std = @import("std"); // standard library"#;
    let imports = extract_imports(source);
    assert_eq!(imports.len(), 1);
    assert_eq!(imports[0].target, "std");
}

#[test]
fn test_extract_doc_comment_empty_file() {
    let source = "";
    assert_eq!(extract_doc_comment(source), None);
}

#[test]
fn test_extract_doc_comment_no_doc_comment() {
    let source = r#"const std = @import("std");
pub fn main() void {}"#;
    assert_eq!(extract_doc_comment(source), None);
}

#[test]
fn test_extract_doc_comment_single_line() {
    let source = "//! This is a single line doc comment.\nconst std = @import(\"std\");";
    assert_eq!(extract_doc_comment(source), Some("This is a single line doc comment.".to_string()));
}

#[test]
fn test_extract_doc_comment_multiline() {
    let source = r#"//! This is the module documentation.
//! It can span multiple lines.

const std = @import("std");"#;
    assert_eq!(
        extract_doc_comment(source),
        Some("This is the module documentation.\nIt can span multiple lines.".to_string())
    );
}

#[test]
fn test_extract_doc_comment_stops_at_blank_line() {
    let source = r#"//! First line.
//! Second line.

//! This should not be captured.
const std = @import("std");"#;
    assert_eq!(extract_doc_comment(source), Some("First line.\nSecond line.".to_string()));
}

#[test]
fn test_extract_doc_comment_regular_comments_not_captured() {
    let source = r#"// Regular comment
// Another regular comment
const std = @import("std");"#;
    assert_eq!(extract_doc_comment(source), None);
}

#[test]
fn test_extract_doc_comment_stops_at_regular_comment() {
    let source = r#"//! Module doc.
// Regular comment should stop the doc.
//! This should not be captured."#;
    assert_eq!(extract_doc_comment(source), Some("Module doc.".to_string()));
}

#[test]
fn test_extract_doc_comment_leading_blank_lines() {
    let source = r#"

//! Doc comment after blank lines.
const std = @import("std");"#;
    assert_eq!(extract_doc_comment(source), Some("Doc comment after blank lines.".to_string()));
}

#[test]
fn test_extract_doc_comment_no_space_after_prefix() {
    let source = "//!No space after prefix\n//! With space\nconst x = 1;";
    assert_eq!(extract_doc_comment(source), Some("No space after prefix\nWith space".to_string()));
}

#[test]
fn test_extract_doc_comment_only_doc_comments() {
    let source = "//! Line 1\n//! Line 2\n//! Line 3";
    assert_eq!(extract_doc_comment(source), Some("Line 1\nLine 2\nLine 3".to_string()));
}

#[test]
fn public_decls_in_order_and_not_in_comments() {
    let source = r#"
pub fn add(a: i32, b: i32) i32 { return a + b; }
pub const MAX_SIZE: usize = 1024;
pub var counter: u32 = 0;
fn private_fn() void {}
// pub fn hidden() void {}
const s = "pub fn fake() void {}";
"#;
    assert_eq!(extract_public_decls(source), vec!["add", "MAX_SIZE", "counter"]);
}

#[test]
fn std_dotted_targets_are_std() {
    let imports = extract_imports("const d = @import(\"std.debug\");\nconst m = @import(\"stdlib.zig\");");
    assert_eq!(imports.len(), 2);
    assert!(imports[0].is_std);
    assert!(!imports[1].is_std);
    assert_eq!(imports[1].line, 2);
}

#[test]
fn masking_keeps_positions_and_quotes() {
    let src = b"a // c\n\"s\\\"x\" 'q' /* b\n */ z";
    let m = mask_comments_and_strings(src);
    assert_eq!(m.len(), src.len());
    assert_eq!(String::from_utf8(m).unwrap(), "a     \n\"    \" ' '     \n    z");
}

#[test]
fn imports_are_read_back_from_the_source_at_the_match() {
    // one match: whole bytes 0..14, target 9..12, on the first line
    let src = b"@import(\"abc\")";
    let spans = vec![vec![Some((0usize, 14usize)), Some((9usize, 12usize))]];
    let r = imports_from_matches(src, &spans);
    assert_eq!(r.len(), 1);
    assert_eq!(r[0].target, "abc");
    assert_eq!(r[0].line, 1);
    assert!(!r[0].is_std);
    // a group outside the text is left out
    let bad = vec![vec![Some((0usize, 14usize)), Some((9usize, 40usize))]];
    assert!(imports_from_matches(src, &bad).is_empty());
}
