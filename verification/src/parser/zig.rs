//! Zig source file parser for extracting @import statements, public declarations and
//! module documentation.

use vstd::prelude::*;
use crate::pattern::{
    regex_captures, regex_spans, spans_within, group_span, get_group, text_of, text_at, line_at,
    line_number, group_texts, texts_of_group,
};
use crate::parser::{doc_marker, doc_text, doc_text_vec};
use crate::text::{
    chars_of, string_from_chars, has_prefix, starts_with_chars, trim_start, trim_start_vec,
    lines_of, split_lines, join, join_vec, sub_vec, is_ws, chars_eq,
};

verus! {

broadcast use vstd::string::group_string_axioms;

/// A single @import statement from a Zig file.
#[derive(Debug, Clone, PartialEq, Eq)]
pub struct ZigImport {
    /// Import target: "scheduler.zig" or "std"
    pub target: String,
    /// Line number (1-indexed) for error messages
    pub line: usize,
    /// true for @import("std") and other standard library imports
    pub is_std: bool,
}

/// Parsed Zig file with imports, exports, and metadata.
#[derive(Debug, Clone)]
pub struct ZigFile {
    /// Absolute path to the source file
    pub path: String,
    /// All @import statements found in the file
    pub imports: Vec<ZigImport>,
    /// Top-level documentation comment (//! ...)
    pub doc_comment: Option<String>,
    /// Public declarations (pub fn, pub const, etc.)
    pub exports: Vec<String>,
    /// Lines of code (non-comment, non-blank)
    pub loc: usize,
}

/// The pattern of an `@import("...")` statement; group 1 is the target.
pub open spec fn import_pattern() -> Seq<char> {
    "@import\\(\"([^\"]+)\"\\)"@
}

/// The pattern of a `pub fn`, `pub const` or `pub var` declaration at the start of a line;
/// group 2 is the name.
pub open spec fn public_decl_pattern() -> Seq<char> {
    "(?m)^\\s*pub\\s+(fn|const|var)\\s+([a-zA-Z_][a-zA-Z0-9_]*)"@
}

// ---------------------------------------------------------------------------
// Masking comments and literals
// ---------------------------------------------------------------------------

/// Where the scanner is: in code, a comment, or a string or character literal (just
/// after a backslash, or not).
pub enum ZigState {
    Code,
    LineComment,
    BlockComment,
    Str(bool),
    Chr(bool),
}

/// A newline stays; any other byte becomes a space.
pub open spec fn blank(c: u8) -> u8 {
    if c == 10u8 { 10u8 } else { 32u8 }
}

/// The masked text of `s[i..]`, starting in state `st`: comments and the contents of
/// string and character literals become spaces (newlines stay), the quotes of literals
/// stay, and code is kept. Every byte keeps its position.
pub open spec fn mask_from(s: Seq<u8>, i: int, st: ZigState) -> Seq<u8>
    decreases s.len() - i,
{
    if i < 0 || i >= s.len() {
        seq![]
    } else {
        let c = s[i];
        let next_is = |b: u8| i + 1 < s.len() && s[i + 1] == b;
        match st {
            ZigState::Code => if c == 47u8 && next_is(47u8) {
                seq![32u8, 32u8] + mask_from(s, i + 2, ZigState::LineComment)
            } else if c == 47u8 && next_is(42u8) {
                seq![32u8, 32u8] + mask_from(s, i + 2, ZigState::BlockComment)
            } else if c == 34u8 {
                seq![34u8] + mask_from(s, i + 1, ZigState::Str(false))
            } else if c == 39u8 {
                seq![39u8] + mask_from(s, i + 1, ZigState::Chr(false))
            } else {
                seq![c] + mask_from(s, i + 1, ZigState::Code)
            },
            ZigState::LineComment => if c == 10u8 {
                seq![10u8] + mask_from(s, i + 1, ZigState::Code)
            } else {
                seq![32u8] + mask_from(s, i + 1, ZigState::LineComment)
            },
            ZigState::BlockComment => if c == 42u8 && next_is(47u8) {
                seq![32u8, 32u8] + mask_from(s, i + 2, ZigState::Code)
            } else {
                seq![blank(c)] + mask_from(s, i + 1, ZigState::BlockComment)
            },
            ZigState::Str(escaped) => if escaped {
                seq![blank(c)] + mask_from(s, i + 1, ZigState::Str(false))
            } else if c == 92u8 {
                seq![32u8] + mask_from(s, i + 1, ZigState::Str(true))
            } else if c == 34u8 {
                seq![34u8] + mask_from(s, i + 1, ZigState::Code)
            } else {
                seq![blank(c)] + mask_from(s, i + 1, ZigState::Str(false))
            },
            ZigState::Chr(escaped) => if escaped {
                seq![blank(c)] + mask_from(s, i + 1, ZigState::Chr(false))
            } else if c == 92u8 {
                seq![32u8] + mask_from(s, i + 1, ZigState::Chr(true))
            } else if c == 39u8 {
                seq![39u8] + mask_from(s, i + 1, ZigState::Code)
            } else {
                seq![blank(c)] + mask_from(s, i + 1, ZigState::Chr(false))
            },
        }
    }
}

/// The masked text of `s`.
pub open spec fn masked(s: Seq<u8>) -> Seq<u8> {
    mask_from(s, 0, ZigState::Code)
}

proof fn lemma_mask_len(s: Seq<u8>, i: int, st: ZigState)
    requires
        0 <= i <= s.len(),
    ensures
        mask_from(s, i, st).len() == s.len() - i,
    decreases s.len() - i,
{
    if i < s.len() {
        let next_is = |b: u8| i + 1 < s.len() && s[i + 1] == b;
        let c = s[i];
        match st {
            ZigState::Code => if c == 47u8 && (next_is(47u8) || next_is(42u8)) {
                if next_is(47u8) {
                    lemma_mask_len(s, i + 2, ZigState::LineComment);
                } else {
                    lemma_mask_len(s, i + 2, ZigState::BlockComment);
                }
            } else {
                lemma_mask_len(s, i + 1, ZigState::Code);
                lemma_mask_len(s, i + 1, ZigState::Str(false));
                lemma_mask_len(s, i + 1, ZigState::Chr(false));
            },
            ZigState::LineComment => {
                lemma_mask_len(s, i + 1, ZigState::Code);
                lemma_mask_len(s, i + 1, ZigState::LineComment);
            },
            ZigState::BlockComment => if c == 42u8 && next_is(47u8) {
                lemma_mask_len(s, i + 2, ZigState::Code);
            } else {
                lemma_mask_len(s, i + 1, ZigState::BlockComment);
            },
            ZigState::Str(_) => {
                lemma_mask_len(s, i + 1, ZigState::Str(false));
                lemma_mask_len(s, i + 1, ZigState::Str(true));
                lemma_mask_len(s, i + 1, ZigState::Code);
            },
            ZigState::Chr(_) => {
                lemma_mask_len(s, i + 1, ZigState::Chr(false));
                lemma_mask_len(s, i + 1, ZigState::Chr(true));
                lemma_mask_len(s, i + 1, ZigState::Code);
            },
        }
    }
}

proof fn lemma_mask_newlines(s: Seq<u8>, i: int, st: ZigState)
    requires
        0 <= i <= s.len(),
    ensures
        mask_from(s, i, st).len() == s.len() - i,
        forall|k: int| 0 <= k < s.len() - i ==> (#[trigger] mask_from(s, i, st)[k] == 10u8) == (s[i + k] == 10u8),
    decreases s.len() - i,
{
    lemma_mask_len(s, i, st);
    if i < s.len() {
        let next_is = |b: u8| i + 1 < s.len() && s[i + 1] == b;
        let c = s[i];
        let m = mask_from(s, i, st);
        match st {
            ZigState::Code => if c == 47u8 && (next_is(47u8) || next_is(42u8)) {
                let nst = if next_is(47u8) { ZigState::LineComment } else { ZigState::BlockComment };
                lemma_mask_newlines(s, i + 2, nst);
                assert forall|k: int| 0 <= k < s.len() - i implies (#[trigger] m[k] == 10u8) == (s[i + k] == 10u8) by {
                    if k >= 2 {
                        assert(m[k] == mask_from(s, i + 2, nst)[k - 2]);
                    }
                }
            } else {
                let nst = if c == 34u8 { ZigState::Str(false) } else if c == 39u8 { ZigState::Chr(false) } else { ZigState::Code };
                lemma_mask_newlines(s, i + 1, nst);
                assert forall|k: int| 0 <= k < s.len() - i implies (#[trigger] m[k] == 10u8) == (s[i + k] == 10u8) by {
                    if k >= 1 {
                        assert(m[k] == mask_from(s, i + 1, nst)[k - 1]);
                    }
                }
            },
            ZigState::BlockComment => if c == 42u8 && next_is(47u8) {
                lemma_mask_newlines(s, i + 2, ZigState::Code);
                assert forall|k: int| 0 <= k < s.len() - i implies (#[trigger] m[k] == 10u8) == (s[i + k] == 10u8) by {
                    if k >= 2 {
                        assert(m[k] == mask_from(s, i + 2, ZigState::Code)[k - 2]);
                    }
                }
            } else {
                lemma_mask_newlines(s, i + 1, ZigState::BlockComment);
                assert forall|k: int| 0 <= k < s.len() - i implies (#[trigger] m[k] == 10u8) == (s[i + k] == 10u8) by {
                    if k >= 1 {
                        assert(m[k] == mask_from(s, i + 1, ZigState::BlockComment)[k - 1]);
                    }
                }
            },
            ZigState::LineComment => {
                let nst = if c == 10u8 { ZigState::Code } else { ZigState::LineComment };
                lemma_mask_newlines(s, i + 1, nst);
                assert forall|k: int| 0 <= k < s.len() - i implies (#[trigger] m[k] == 10u8) == (s[i + k] == 10u8) by {
                    if k >= 1 {
                        assert(m[k] == mask_from(s, i + 1, nst)[k - 1]);
                    }
                }
            },
            ZigState::Str(escaped) => {
                let nst = if escaped { ZigState::Str(false) } else if c == 92u8 { ZigState::Str(true) } else if c == 34u8 { ZigState::Code } else { ZigState::Str(false) };
                lemma_mask_newlines(s, i + 1, nst);
                assert forall|k: int| 0 <= k < s.len() - i implies (#[trigger] m[k] == 10u8) == (s[i + k] == 10u8) by {
                    if k >= 1 {
                        assert(m[k] == mask_from(s, i + 1, nst)[k - 1]);
                    }
                }
            },
            ZigState::Chr(escaped) => {
                let nst = if escaped { ZigState::Chr(false) } else if c == 92u8 { ZigState::Chr(true) } else if c == 39u8 { ZigState::Code } else { ZigState::Chr(false) };
                lemma_mask_newlines(s, i + 1, nst);
                assert forall|k: int| 0 <= k < s.len() - i implies (#[trigger] m[k] == 10u8) == (s[i + k] == 10u8) by {
                    if k >= 1 {
                        assert(m[k] == mask_from(s, i + 1, nst)[k - 1]);
                    }
                }
            },
        }
    }
}

/// Masking keeps every line where it was: the masked text has a newline exactly where the
/// source has one, so lines counted in either agree.
pub proof fn law_mask_keeps_lines(s: Seq<u8>)
    ensures
        masked(s).len() == s.len(),
        forall|k: int| 0 <= k < s.len() ==> (#[trigger] masked(s)[k] == 10u8) == (s[k] == 10u8),
{
    lemma_mask_newlines(s, 0, ZigState::Code);
}

fn blank_byte(c: u8) -> (r: u8)
    ensures
        r == blank(c),
{
    if c == 10u8 { 10u8 } else { 32u8 }
}

/// Mask comments and the contents of string and character literals, keeping every byte's
/// position, so that matches in the result can be read back from the source.
pub fn mask_comments_and_strings(s: &[u8]) -> (r: Vec<u8>)
    ensures
        r@ == masked(s@),
        r@.len() == s@.len(),
{
    let mut out: Vec<u8> = Vec::new();
    let mut st = ZigState::Code;
    let mut i: usize = 0;
    proof {
        lemma_mask_len(s@, 0, ZigState::Code);
    }
    while i < s.len()
        invariant
            i <= s@.len(),
            out@ + mask_from(s@, i as int, st) == masked(s@),
        decreases s.len() - i,
    {
        let c = s[i];
        let n1 = i + 1 < s.len() && s[i + 1] == 47u8;
        let n2 = i + 1 < s.len() && s[i + 1] == 42u8;
        let ghost before = out@;
        let ghost i0 = i as int;
        let ghost st0 = st;
        match st {
            ZigState::Code => {
                if c == 47u8 && n1 {
                    out.push(32u8);
                    out.push(32u8);
                    st = ZigState::LineComment;
                    i += 2;
                } else if c == 47u8 && n2 {
                    out.push(32u8);
                    out.push(32u8);
                    st = ZigState::BlockComment;
                    i += 2;
                } else if c == 34u8 {
                    out.push(34u8);
                    st = ZigState::Str(false);
                    i += 1;
                } else if c == 39u8 {
                    out.push(39u8);
                    st = ZigState::Chr(false);
                    i += 1;
                } else {
                    out.push(c);
                    i += 1;
                }
            },
            ZigState::LineComment => {
                if c == 10u8 {
                    out.push(10u8);
                    st = ZigState::Code;
                } else {
                    out.push(32u8);
                }
                i += 1;
            },
            ZigState::BlockComment => {
                if c == 42u8 && n1 {
                    out.push(32u8);
                    out.push(32u8);
                    st = ZigState::Code;
                    i += 2;
                } else {
                    out.push(blank_byte(c));
                    i += 1;
                }
            },
            ZigState::Str(escaped) => {
                if escaped {
                    out.push(blank_byte(c));
                    st = ZigState::Str(false);
                } else if c == 92u8 {
                    out.push(32u8);
                    st = ZigState::Str(true);
                } else if c == 34u8 {
                    out.push(34u8);
                    st = ZigState::Code;
                } else {
                    out.push(blank_byte(c));
                }
                i += 1;
            },
            ZigState::Chr(escaped) => {
                if escaped {
                    out.push(blank_byte(c));
                    st = ZigState::Chr(false);
                } else if c == 92u8 {
                    out.push(32u8);
                    st = ZigState::Chr(true);
                } else if c == 39u8 {
                    out.push(39u8);
                    st = ZigState::Code;
                } else {
                    out.push(blank_byte(c));
                }
                i += 1;
            },
        }
        assert(mask_from(s@, i0, st0) == (out@.subrange(before.len() as int, out@.len() as int)) + mask_from(s@, i as int, st));
        assert(out@ =~= before + out@.subrange(before.len() as int, out@.len() as int));
    }
    assert(out@ + mask_from(s@, i as int, st) =~= out@);
    out
}

// ---------------------------------------------------------------------------
// Imports
// ---------------------------------------------------------------------------

/// An import as plain values: its target, its line and whether it names the standard
/// library.
pub open spec fn import_view(i: ZigImport) -> (Seq<char>, nat, bool) {
    (i.target@, i.line as nat, i.is_std)
}

/// Whether an import target names the standard library: `std` itself, or a path below it
/// (`std.` followed by more).
pub open spec fn is_std_target(t: Seq<char>) -> bool {
    t == "std"@ || has_prefix(t, "std."@)
}

fn is_std_name(t: &Vec<char>) -> (b: bool)
    ensures
        b == is_std_target(t@),
{
    let plain = chars_of("std");
    let dotted = chars_of("std.");
    chars_eq(t, &plain) || starts_with_chars(t, &dotted)
}

/// The imports described by the first `upto` matches `spans` of the import pattern, read
/// back from the source bytes `src`: for each match, in order, whose whole span (not
/// empty) and target span lie in the source and whose target is valid UTF-8, the target
/// text, the line on which the match starts, and whether the target names the standard
/// library.
pub open spec fn imports_upto(src: Seq<u8>, spans: Seq<Seq<Option<(usize, usize)>>>, upto: int) -> Seq<(Seq<char>, nat, bool)>
    decreases upto,
{
    if upto <= 0 {
        seq![]
    } else {
        let rest = imports_upto(src, spans, upto - 1);
        match (group_span(spans, upto - 1, 0, src.len()), group_span(spans, upto - 1, 1, src.len())) {
            (Some(whole), Some(g)) => if whole.0 < whole.1 {
                match text_of(src, g.0 as int, g.1 as int) {
                    Some(t) => rest.push((t, line_at(src, whole.0 as int), is_std_target(t))),
                    None => rest,
                }
            } else {
                rest
            },
            _ => rest,
        }
    }
}

/// The imports described by all matches `spans`.
pub open spec fn imports_of_matches(src: Seq<u8>, spans: Seq<Seq<Option<(usize, usize)>>>) -> Seq<(Seq<char>, nat, bool)> {
    imports_upto(src, spans, spans.len() as int)
}

/// The imports of a Zig source text, given as bytes: the import pattern is matched in
/// the masked text, so that nothing inside a comment or a literal counts, and each
/// target is read from the source at the same place.
pub open spec fn zig_imports(src: Seq<u8>) -> Seq<(Seq<char>, nat, bool)> {
    imports_of_matches(src, regex_spans(import_pattern(), masked(src)))
}

/// Builds the imports from the matches of the import pattern: see `imports_of_matches`.
pub fn imports_from_matches(src: &[u8], spans: &Vec<Vec<Option<(usize, usize)>>>) -> (r: Vec<ZigImport>)
    ensures
        r@.map_values(|i: ZigImport| import_view(i)) == imports_of_matches(src@, spans.deep_view()),
{
    let mut r: Vec<ZigImport> = Vec::new();
    let mut m: usize = 0;
    while m < spans.len()
        invariant
            m <= spans@.len(),
            spans.deep_view().len() == spans@.len(),
            r@.map_values(|i: ZigImport| import_view(i)) == imports_upto(src@, spans.deep_view(), m as int),
        decreases spans.len() - m,
    {
        let ghost before = r@.map_values(|i: ZigImport| import_view(i));
        let whole = get_group(spans, m, 0, src.len());
        let group = get_group(spans, m, 1, src.len());
        match (whole, group) {
            (Some(w), Some(g)) => if w.0 < w.1 {
                match text_at(src, g.0, g.1) {
                    Some(t) => {
                        let tv = chars_of(t.as_str());
                        let is_std = is_std_name(&tv);
                        let line = line_number(src, w.0);
                        let imp = ZigImport { target: t, line, is_std };
                        r.push(imp);
                        assert(r@.map_values(|i: ZigImport| import_view(i)) =~= before.push(import_view(imp)));
                    },
                    None => {},
                }
            } else {
            },
            _ => {},
        }
        m += 1;
    }
    r
}

/// The pattern of an import, as the regex crate reads it.
fn import_pattern_text() -> (p: &'static str)
    ensures
        p@ == import_pattern(),
{
    "@import\\(\"([^\"]+)\"\\)"
}

/// The pattern of a public declaration, as the regex crate reads it.
fn public_decl_pattern_text() -> (p: &'static str)
    ensures
        p@ == public_decl_pattern(),
{
    "(?m)^\\s*pub\\s+(fn|const|var)\\s+([a-zA-Z_][a-zA-Z0-9_]*)"
}

/// Extract all `@import` statements from Zig source code, in order.
///
/// Imports inside line comments, block comments, string literals and character literals
/// are not reported. Each import carries its target, the 1-based line on which it stands,
/// and whether it names the standard library (`std`, or a target starting with `std.`).
pub fn extract_imports(source: &str) -> (r: Vec<ZigImport>)
    ensures
        r@.map_values(|i: ZigImport| import_view(i)) == zig_imports(vstd::utf8::encode_utf8(source@)),
{
    let src = source.as_bytes();
    let cleaned = mask_comments_and_strings(src);
    let spans = regex_captures(import_pattern_text(), cleaned.as_slice());
    imports_from_matches(src, &spans)
}

/// The names of the public declarations (`pub fn`, `pub const`, `pub var` at the start of
/// a line) of a Zig source text given as bytes, in order; declarations inside comments and
/// literals do not count.
pub open spec fn zig_public_decls(src: Seq<u8>) -> Seq<Seq<char>> {
    group_texts(masked(src), regex_spans(public_decl_pattern(), masked(src)), 2)
}

/// Extract the names of all public declarations from Zig source code, in order.
///
/// Finds `pub fn`, `pub const` and `pub var` declarations; private declarations and
/// declarations inside comments or strings are not reported.
pub fn extract_public_decls(source: &str) -> (r: Vec<String>)
    ensures
        r@.map_values(|s: String| s@) == zig_public_decls(vstd::utf8::encode_utf8(source@)),
{
    let cleaned = mask_comments_and_strings(source.as_bytes());
    let spans = regex_captures(public_decl_pattern_text(), cleaned.as_slice());
    texts_of_group(cleaned.as_slice(), &spans, 2)
}

// ---------------------------------------------------------------------------
// Module documentation
// ---------------------------------------------------------------------------

/// The module doc lines among `lines[i..]`: blank lines are skipped until the first doc
/// line (`started` says whether one was seen), then consecutive lines that start with
/// `//!` after leading whitespace are taken, up to the first other line.
pub open spec fn zig_doc_lines(lines: Seq<Seq<char>>, i: int, started: bool) -> Seq<Seq<char>>
    decreases lines.len() - i,
{
    if i < 0 || i >= lines.len() {
        seq![]
    } else {
        let t = trim_start(lines[i]);
        if has_prefix(t, doc_marker()) {
            seq![doc_text(t)] + zig_doc_lines(lines, i + 1, true)
        } else if t.len() == 0 && !started {
            zig_doc_lines(lines, i + 1, false)
        } else {
            seq![]
        }
    }
}

/// The module documentation of a Zig source: its doc lines joined by newlines, or none
/// when there is no doc line.
pub open spec fn zig_doc_comment(src: Seq<char>) -> Option<Seq<char>> {
    let d = zig_doc_lines(lines_of(src), 0, false);
    if d.len() == 0 {
        None
    } else {
        Some(join(d, seq!['\n']))
    }
}

/// Extracts the module documentation from the `//!` comments at the start of a Zig file.
///
/// Leading blank lines are skipped; then consecutive `//!` lines are collected, each
/// without the marker and one following space, and joined with newlines. The first other
/// line (a blank line, a regular comment, code) ends the documentation. Returns `None`
/// when the file has no such comment.
pub fn extract_doc_comment(source: &str) -> (r: Option<String>)
    ensures
        r matches Some(s) ==> zig_doc_comment(source@) == Some(s@),
        r is None ==> zig_doc_comment(source@) is None,
{
    let chars = chars_of(source);
    let lines = split_lines(&chars);
    let marker = chars_of("//!");
    let ghost all = lines.deep_view();
    let mut doc: Vec<Vec<char>> = Vec::new();
    let mut i: usize = 0;
    let mut stop = false;
    while i < lines.len() && !stop
        invariant
            i <= lines@.len(),
            all == lines.deep_view(),
            all == lines_of(source@),
            marker@ == doc_marker(),
            !stop ==> doc.deep_view() + zig_doc_lines(all, i as int, doc@.len() > 0) == zig_doc_lines(all, 0, false),
            stop ==> doc.deep_view() == zig_doc_lines(all, 0, false),
        decreases lines.len() - i, if stop { 0int } else { 1int },
    {
        let t = trim_start_vec(&lines[i]);
        assert(lines@[i as int]@ == all[i as int]);
        let ghost before = doc.deep_view();
        if starts_with_chars(&t, &marker) {
            let d = doc_text_vec(&t, &marker);
            assert(d.deep_view() =~= d@);
            doc.push(d);
            assert(doc.deep_view() =~= before.push(doc_text(t@)));
            assert(doc.deep_view() + zig_doc_lines(all, i + 1, true) =~= before + (seq![doc_text(t@)] + zig_doc_lines(all, i + 1, true)));
            i += 1;
        } else if t.len() == 0 && doc.len() == 0 {
            i += 1;
        } else {
            assert(doc.deep_view() + seq![] =~= doc.deep_view());
            stop = true;
        }
    }
    if !stop {
        assert(doc.deep_view() + seq![] =~= doc.deep_view());
    }
    if doc.len() == 0 {
        None
    } else {
        let mut sep: Vec<char> = Vec::new();
        sep.push('\n');
        assert(sep@ =~= seq!['\n']);
        let joined = join_vec(&doc, &sep);
        Some(string_from_chars(&joined))
    }
}

} // verus!
