//! Rust source file parser for extracting use statements, mod declarations, and exports.

use vstd::prelude::*;
use crate::pattern::{
    regex_captures, regex_spans, group_span, get_group, text_of, text_at, line_at, line_number,
    group_texts, texts_of_group,
};
use crate::parser::{doc_marker, doc_text, doc_text_vec};
use crate::parser::zig::{zig_doc_comment, zig_doc_lines};
use crate::text::{
    chars_of, string_from_chars, str_to_string, has_prefix, starts_with_chars, trim_start,
    trim_start_vec, trim, trim_vec, trim_start_char, trim_start_char_vec, find, find_chars,
    lines_of, split_lines, join, join_vec, sub_vec, append_all,
};

verus! {

broadcast use vstd::string::group_string_axioms;

// ---------------------------------------------------------------------------
// Removing comments and literals
// ---------------------------------------------------------------------------

/// Where the scanner is. Raw strings carry the number of `#` of their opening; while a
/// raw string may be closing, the number of `#` seen after the quote is carried too.
pub enum RustScan {
    Code,
    LineComment,
    BlockComment,
    Str(bool),
    Chr(bool),
    RawOpen(nat),
    RawBody(nat),
    RawClose(nat, nat),
}

/// What is left of `s[i..]`, starting in state `st`, once comments and literals are
/// removed: a line comment up to its newline and a block comment up to `*/` vanish (their
/// newlines stay); a string, raw string or character literal becomes one space (the
/// newlines of raw strings and strings stay, but one escaped by a backslash in a string);
/// code is kept. A `'` opens a character
/// literal only when an escape follows it or a `'` closes it one character later;
/// otherwise it starts a lifetime or a label and is kept as code.
pub open spec fn strip_from(s: Seq<char>, i: int, st: RustScan) -> Seq<char>
    decreases s.len() - i,
{
    if i < 0 || i >= s.len() {
        seq![]
    } else {
        let c = s[i];
        let next_is = |x: char| i + 1 < s.len() && s[i + 1] == x;
        match st {
            RustScan::Code => if c == '/' && next_is('/') {
                strip_from(s, i + 2, RustScan::LineComment)
            } else if c == '/' && next_is('*') {
                strip_from(s, i + 2, RustScan::BlockComment)
            } else if c == 'r' && (next_is('"') || next_is('#')) {
                seq![' '] + strip_from(s, i + 1, RustScan::RawOpen(0))
            } else if c == '"' {
                seq![' '] + strip_from(s, i + 1, RustScan::Str(false))
            } else if c == '\'' && (next_is('\\') || (i + 2 < s.len() && s[i + 2] == '\'')) {
                seq![' '] + strip_from(s, i + 1, RustScan::Chr(false))
            } else {
                seq![c] + strip_from(s, i + 1, RustScan::Code)
            },
            RustScan::LineComment => if c == '\n' {
                seq!['\n'] + strip_from(s, i + 1, RustScan::Code)
            } else {
                strip_from(s, i + 1, RustScan::LineComment)
            },
            RustScan::BlockComment => if c == '*' && next_is('/') {
                strip_from(s, i + 2, RustScan::Code)
            } else if c == '\n' {
                seq!['\n'] + strip_from(s, i + 1, RustScan::BlockComment)
            } else {
                strip_from(s, i + 1, RustScan::BlockComment)
            },
            RustScan::Str(escaped) => if escaped {
                strip_from(s, i + 1, RustScan::Str(false))
            } else if c == '\\' {
                strip_from(s, i + 1, RustScan::Str(true))
            } else if c == '"' {
                strip_from(s, i + 1, RustScan::Code)
            } else if c == '\n' {
                seq!['\n'] + strip_from(s, i + 1, RustScan::Str(false))
            } else {
                strip_from(s, i + 1, RustScan::Str(false))
            },
            RustScan::Chr(escaped) => if escaped {
                strip_from(s, i + 1, RustScan::Chr(false))
            } else if c == '\\' {
                strip_from(s, i + 1, RustScan::Chr(true))
            } else if c == '\'' {
                strip_from(s, i + 1, RustScan::Code)
            } else {
                strip_from(s, i + 1, RustScan::Chr(false))
            },
            RustScan::RawOpen(h) => if c == '#' {
                strip_from(s, i + 1, RustScan::RawOpen(h + 1))
            } else if c == '"' {
                strip_from(s, i + 1, RustScan::RawBody(h))
            } else if c == '\n' {
                seq!['\n'] + strip_from(s, i + 1, RustScan::RawBody(h))
            } else {
                strip_from(s, i + 1, RustScan::RawBody(h))
            },
            RustScan::RawBody(h) => if c == '"' {
                if h == 0 {
                    strip_from(s, i + 1, RustScan::Code)
                } else {
                    strip_from(s, i + 1, RustScan::RawClose(h, 0))
                }
            } else if c == '\n' {
                seq!['\n'] + strip_from(s, i + 1, RustScan::RawBody(h))
            } else {
                strip_from(s, i + 1, RustScan::RawBody(h))
            },
            RustScan::RawClose(h, found) => if c == '#' {
                if found + 1 >= h {
                    strip_from(s, i + 1, RustScan::Code)
                } else {
                    strip_from(s, i + 1, RustScan::RawClose(h, found + 1))
                }
            } else if c == '"' {
                strip_from(s, i + 1, RustScan::RawClose(h, 0))
            } else if c == '\n' {
                seq!['\n'] + strip_from(s, i + 1, RustScan::RawBody(h))
            } else {
                strip_from(s, i + 1, RustScan::RawBody(h))
            },
        }
    }
}

/// The text of `s` with comments and literals removed.
pub open spec fn rust_cleaned(s: Seq<char>) -> Seq<char> {
    strip_from(s, 0, RustScan::Code)
}

/// No character of `t` is a double quote.
pub open spec fn quote_free(t: Seq<char>) -> bool {
    forall|k: int| 0 <= k < t.len() ==> #[trigger] t[k] != '"'
}

proof fn lemma_quote_free_concat(a: Seq<char>, b: Seq<char>)
    requires
        quote_free(a),
        quote_free(b),
    ensures
        quote_free(a + b),
{
    assert forall|k: int| 0 <= k < (a + b).len() implies #[trigger] (a + b)[k] != '"' by {
        if k < a.len() {
            assert((a + b)[k] == a[k]);
        } else {
            assert((a + b)[k] == b[k - a.len()]);
        }
    }
}

proof fn lemma_strip_quote_free(s: Seq<char>, i: int, st: RustScan)
    ensures
        quote_free(strip_from(s, i, st)),
    decreases s.len() - i,
{
    if 0 <= i < s.len() {
        let c = s[i];
        let next_is = |x: char| i + 1 < s.len() && s[i + 1] == x;
        let (head, j, nst): (Seq<char>, int, RustScan) = match st {
            RustScan::Code => if c == '/' && next_is('/') {
                (seq![], i + 2, RustScan::LineComment)
            } else if c == '/' && next_is('*') {
                (seq![], i + 2, RustScan::BlockComment)
            } else if c == 'r' && (next_is('"') || next_is('#')) {
                (seq![' '], i + 1, RustScan::RawOpen(0))
            } else if c == '"' {
                (seq![' '], i + 1, RustScan::Str(false))
            } else if c == '\'' && (next_is('\\') || (i + 2 < s.len() && s[i + 2] == '\'')) {
                (seq![' '], i + 1, RustScan::Chr(false))
            } else {
                (seq![c], i + 1, RustScan::Code)
            },
            RustScan::LineComment => if c == '\n' {
                (seq!['\n'], i + 1, RustScan::Code)
            } else {
                (seq![], i + 1, RustScan::LineComment)
            },
            RustScan::BlockComment => if c == '*' && next_is('/') {
                (seq![], i + 2, RustScan::Code)
            } else if c == '\n' {
                (seq!['\n'], i + 1, RustScan::BlockComment)
            } else {
                (seq![], i + 1, RustScan::BlockComment)
            },
            RustScan::Str(escaped) => if escaped {
                (seq![], i + 1, RustScan::Str(false))
            } else if c == '\\' {
                (seq![], i + 1, RustScan::Str(true))
            } else if c == '"' {
                (seq![], i + 1, RustScan::Code)
            } else if c == '\n' {
                (seq!['\n'], i + 1, RustScan::Str(false))
            } else {
                (seq![], i + 1, RustScan::Str(false))
            },
            RustScan::Chr(escaped) => if escaped {
                (seq![], i + 1, RustScan::Chr(false))
            } else if c == '\\' {
                (seq![], i + 1, RustScan::Chr(true))
            } else if c == '\'' {
                (seq![], i + 1, RustScan::Code)
            } else {
                (seq![], i + 1, RustScan::Chr(false))
            },
            RustScan::RawOpen(h) => if c == '#' {
                (seq![], i + 1, RustScan::RawOpen(h + 1))
            } else if c == '"' {
                (seq![], i + 1, RustScan::RawBody(h))
            } else if c == '\n' {
                (seq!['\n'], i + 1, RustScan::RawBody(h))
            } else {
                (seq![], i + 1, RustScan::RawBody(h))
            },
            RustScan::RawBody(h) => if c == '"' {
                if h == 0 {
                    (seq![], i + 1, RustScan::Code)
                } else {
                    (seq![], i + 1, RustScan::RawClose(h, 0))
                }
            } else if c == '\n' {
                (seq!['\n'], i + 1, RustScan::RawBody(h))
            } else {
                (seq![], i + 1, RustScan::RawBody(h))
            },
            RustScan::RawClose(h, found) => if c == '#' {
                if found + 1 >= h {
                    (seq![], i + 1, RustScan::Code)
                } else {
                    (seq![], i + 1, RustScan::RawClose(h, found + 1))
                }
            } else if c == '"' {
                (seq![], i + 1, RustScan::RawClose(h, 0))
            } else if c == '\n' {
                (seq!['\n'], i + 1, RustScan::RawBody(h))
            } else {
                (seq![], i + 1, RustScan::RawBody(h))
            },
        };
        lemma_strip_quote_free(s, j, nst);
        assert(strip_from(s, i, st) == head + strip_from(s, j, nst));
        assert(quote_free(head));
        lemma_quote_free_concat(head, strip_from(s, j, nst));
    }
}

/// Once comments and literals are removed, no double quote is left: every string and raw
/// string is gone.
pub proof fn law_cleaned_has_no_quotes(s: Seq<char>)
    ensures
        quote_free(rust_cleaned(s)),
{
    lemma_strip_quote_free(s, 0, RustScan::Code);
}

/// The number of line breaks in `t`.
pub open spec fn newlines(t: Seq<char>) -> nat
    decreases t.len(),
{
    if t.len() == 0 {
        0
    } else {
        (if t[0] == '\n' { 1nat } else { 0nat }) + newlines(t.drop_first())
    }
}

proof fn lemma_newlines_concat(a: Seq<char>, b: Seq<char>)
    ensures
        newlines(a + b) == newlines(a) + newlines(b),
    decreases a.len(),
{
    if a.len() > 0 {
        lemma_newlines_concat(a.drop_first(), b);
        assert((a + b).drop_first() =~= a.drop_first() + b);
    } else {
        assert(a + b =~= b);
    }
}

/// The line breaks of `s[i..]` are those of `s[i..j]` and of `s[j..]`.
proof fn lemma_newlines_split(s: Seq<char>, i: int, j: int)
    requires
        0 <= i <= j <= s.len(),
    ensures
        newlines(s.subrange(i, s.len() as int)) == newlines(s.subrange(i, j)) + newlines(s.subrange(j, s.len() as int)),
{
    assert(s.subrange(i, s.len() as int) =~= s.subrange(i, j) + s.subrange(j, s.len() as int));
    lemma_newlines_concat(s.subrange(i, j), s.subrange(j, s.len() as int));
}

/// The line breaks of one or two characters.
proof fn lemma_newlines_short(s: Seq<char>, i: int, j: int)
    requires
        0 <= i < j <= s.len(),
        j <= i + 2,
    ensures
        newlines(s.subrange(i, j)) == (if s[i] == '\n' { 1nat } else { 0nat }) + if j == i + 2 && s[i + 1] == '\n' { 1nat } else { 0nat },
{
    let t = s.subrange(i, j);
    let u = s.subrange(i + 1, j);
    assert(t.drop_first() =~= u);
    assert(t[0] == s[i]);
    assert(newlines(t) == (if s[i] == '\n' { 1nat } else { 0nat }) + newlines(u));
    if j == i + 2 {
        assert(u[0] == s[i + 1]);
        assert(u.drop_first() =~= Seq::<char>::empty());
        assert(newlines(u) == (if s[i + 1] == '\n' { 1nat } else { 0nat }) + newlines(u.drop_first()));
    } else {
        assert(u =~= Seq::<char>::empty());
    }
}

proof fn lemma_strip_shrinks(s: Seq<char>, i: int, st: RustScan)
    requires
        0 <= i <= s.len(),
    ensures
        strip_from(s, i, st).len() <= s.len() - i,
        newlines(strip_from(s, i, st)) <= newlines(s.subrange(i, s.len() as int)),
    decreases s.len() - i,
{
    if i < s.len() {
        let c = s[i];
        let next_is = |x: char| i + 1 < s.len() && s[i + 1] == x;
        let (head, j, nst): (Seq<char>, int, RustScan) = match st {
            RustScan::Code => if c == '/' && next_is('/') {
                (seq![], i + 2, RustScan::LineComment)
            } else if c == '/' && next_is('*') {
                (seq![], i + 2, RustScan::BlockComment)
            } else if c == 'r' && (next_is('"') || next_is('#')) {
                (seq![' '], i + 1, RustScan::RawOpen(0))
            } else if c == '"' {
                (seq![' '], i + 1, RustScan::Str(false))
            } else if c == '\'' && (next_is('\\') || (i + 2 < s.len() && s[i + 2] == '\'')) {
                (seq![' '], i + 1, RustScan::Chr(false))
            } else {
                (seq![c], i + 1, RustScan::Code)
            },
            RustScan::LineComment => if c == '\n' {
                (seq!['\n'], i + 1, RustScan::Code)
            } else {
                (seq![], i + 1, RustScan::LineComment)
            },
            RustScan::BlockComment => if c == '*' && next_is('/') {
                (seq![], i + 2, RustScan::Code)
            } else if c == '\n' {
                (seq!['\n'], i + 1, RustScan::BlockComment)
            } else {
                (seq![], i + 1, RustScan::BlockComment)
            },
            RustScan::Str(escaped) => if escaped {
                (seq![], i + 1, RustScan::Str(false))
            } else if c == '\\' {
                (seq![], i + 1, RustScan::Str(true))
            } else if c == '"' {
                (seq![], i + 1, RustScan::Code)
            } else if c == '\n' {
                (seq!['\n'], i + 1, RustScan::Str(false))
            } else {
                (seq![], i + 1, RustScan::Str(false))
            },
            RustScan::Chr(escaped) => if escaped {
                (seq![], i + 1, RustScan::Chr(false))
            } else if c == '\\' {
                (seq![], i + 1, RustScan::Chr(true))
            } else if c == '\'' {
                (seq![], i + 1, RustScan::Code)
            } else {
                (seq![], i + 1, RustScan::Chr(false))
            },
            RustScan::RawOpen(h) => if c == '#' {
                (seq![], i + 1, RustScan::RawOpen(h + 1))
            } else if c == '"' {
                (seq![], i + 1, RustScan::RawBody(h))
            } else if c == '\n' {
                (seq!['\n'], i + 1, RustScan::RawBody(h))
            } else {
                (seq![], i + 1, RustScan::RawBody(h))
            },
            RustScan::RawBody(h) => if c == '"' {
                if h == 0 {
                    (seq![], i + 1, RustScan::Code)
                } else {
                    (seq![], i + 1, RustScan::RawClose(h, 0))
                }
            } else if c == '\n' {
                (seq!['\n'], i + 1, RustScan::RawBody(h))
            } else {
                (seq![], i + 1, RustScan::RawBody(h))
            },
            RustScan::RawClose(h, found) => if c == '#' {
                if found + 1 >= h {
                    (seq![], i + 1, RustScan::Code)
                } else {
                    (seq![], i + 1, RustScan::RawClose(h, found + 1))
                }
            } else if c == '"' {
                (seq![], i + 1, RustScan::RawClose(h, 0))
            } else if c == '\n' {
                (seq!['\n'], i + 1, RustScan::RawBody(h))
            } else {
                (seq![], i + 1, RustScan::RawBody(h))
            },
        };
        lemma_strip_shrinks(s, j, nst);
        assert(strip_from(s, i, st) == head + strip_from(s, j, nst));
        lemma_newlines_split(s, i, j);
        lemma_newlines_short(s, i, j);
        lemma_newlines_concat(head, strip_from(s, j, nst));
        assert(head.len() <= 1);
        if head.len() == 1 {
            assert(head.drop_first() =~= Seq::<char>::empty());
            assert(newlines(head) == (if head[0] == '\n' { 1nat } else { 0nat }) + newlines(head.drop_first()));
            assert(head[0] == '\n' ==> c == '\n');
        } else {
            assert(head =~= Seq::<char>::empty());
        }
    } else {
        assert(s.subrange(i, s.len() as int) =~= Seq::<char>::empty());
    }
}

/// Removing comments and literals never lengthens the text nor adds line breaks: the
/// result is at most as long as the source and has at most its line breaks (all of them,
/// but those escaped in strings or inside character literals).
pub proof fn law_cleaning_shrinks(s: Seq<char>)
    ensures
        rust_cleaned(s).len() <= s.len(),
        newlines(rust_cleaned(s)) <= newlines(s),
{
    lemma_strip_shrinks(s, 0, RustScan::Code);
    assert(s.subrange(0, s.len() as int) =~= s);
}

/// The scanner's state as the loop keeps it.
enum Scan {
    Code,
    LineComment,
    BlockComment,
    Str(bool),
    Chr(bool),
    RawOpen(usize),
    RawBody(usize),
    RawClose(usize, usize),
}

impl View for Scan {
    type V = RustScan;

    closed spec fn view(&self) -> RustScan {
        match *self {
            Scan::Code => RustScan::Code,
            Scan::LineComment => RustScan::LineComment,
            Scan::BlockComment => RustScan::BlockComment,
            Scan::Str(e) => RustScan::Str(e),
            Scan::Chr(e) => RustScan::Chr(e),
            Scan::RawOpen(h) => RustScan::RawOpen(h as nat),
            Scan::RawBody(h) => RustScan::RawBody(h as nat),
            Scan::RawClose(h, f) => RustScan::RawClose(h as nat, f as nat),
        }
    }
}

/// The counts of `#` that a state carries are bounded by the position reached.
spec fn scan_bounded(st: Scan, i: int) -> bool {
    match st {
        Scan::RawOpen(h) => h <= i,
        Scan::RawBody(h) => h <= i,
        Scan::RawClose(h, f) => h <= i && f < h,
        _ => true,
    }
}

/// The characters of `s` with comments and literals removed; see `strip_from`.
fn strip_chars(s: &Vec<char>) -> (r: Vec<char>)
    ensures
        r@ == rust_cleaned(s@),
{
    let mut out: Vec<char> = Vec::new();
    let mut st = Scan::Code;
    let mut i: usize = 0;
    while i < s.len()
        invariant
            i <= s@.len(),
            scan_bounded(st, i as int),
            out@ + strip_from(s@, i as int, st@) == rust_cleaned(s@),
        decreases s.len() - i,
    {
        let c = s[i];
        let next_slash = i + 1 < s.len() && s[i + 1] == '/';
        let next_star = i + 1 < s.len() && s[i + 1] == '*';
        let next_quote = i + 1 < s.len() && s[i + 1] == '"';
        let next_hash = i + 1 < s.len() && s[i + 1] == '#';
        let next_backslash = i + 1 < s.len() && s[i + 1] == '\\';
        let third_quote = i + 1 < s.len() && i + 2 < s.len() && s[i + 2] == '\'';
        let ghost before = out@;
        let ghost i0 = i as int;
        let ghost st0 = st@;
        match st {
            Scan::Code => {
                if c == '/' && next_slash {
                    st = Scan::LineComment;
                    i += 2;
                } else if c == '/' && next_star {
                    st = Scan::BlockComment;
                    i += 2;
                } else if c == 'r' && (next_quote || next_hash) {
                    out.push(' ');
                    st = Scan::RawOpen(0);
                    i += 1;
                } else if c == '"' {
                    out.push(' ');
                    st = Scan::Str(false);
                    i += 1;
                } else if c == '\'' && (next_backslash || third_quote) {
                    out.push(' ');
                    st = Scan::Chr(false);
                    i += 1;
                } else {
                    out.push(c);
                    i += 1;
                }
            },
            Scan::LineComment => {
                if c == '\n' {
                    out.push('\n');
                    st = Scan::Code;
                }
                i += 1;
            },
            Scan::BlockComment => {
                if c == '*' && next_slash {
                    st = Scan::Code;
                    i += 2;
                } else {
                    if c == '\n' {
                        out.push('\n');
                    }
                    i += 1;
                }
            },
            Scan::Str(escaped) => {
                if escaped {
                    st = Scan::Str(false);
                } else if c == '\\' {
                    st = Scan::Str(true);
                } else if c == '"' {
                    st = Scan::Code;
                } else if c == '\n' {
                    out.push('\n');
                }
                i += 1;
            },
            Scan::Chr(escaped) => {
                if escaped {
                    st = Scan::Chr(false);
                } else if c == '\\' {
                    st = Scan::Chr(true);
                } else if c == '\'' {
                    st = Scan::Code;
                }
                i += 1;
            },
            Scan::RawOpen(h) => {
                if c == '#' {
                    st = Scan::RawOpen(h + 1);
                } else {
                    if c == '\n' {
                        out.push('\n');
                    }
                    st = Scan::RawBody(h);
                }
                i += 1;
            },
            Scan::RawBody(h) => {
                if c == '"' {
                    if h == 0 {
                        st = Scan::Code;
                    } else {
                        st = Scan::RawClose(h, 0);
                    }
                } else if c == '\n' {
                    out.push('\n');
                }
                i += 1;
            },
            Scan::RawClose(h, found) => {
                if c == '#' {
                    if found + 1 >= h {
                        st = Scan::Code;
                    } else {
                        st = Scan::RawClose(h, found + 1);
                    }
                } else if c == '"' {
                    st = Scan::RawClose(h, 0);
                } else {
                    if c == '\n' {
                        out.push('\n');
                    }
                    st = Scan::RawBody(h);
                }
                i += 1;
            },
        }
        assert(strip_from(s@, i0, st0) == out@.subrange(before.len() as int, out@.len() as int) + strip_from(s@, i as int, st@));
        assert(out@ =~= before + out@.subrange(before.len() as int, out@.len() as int));
    }
    assert(out@ + strip_from(s@, i as int, st@) =~= out@);
    out
}

/// Remove comments and string literals from Rust source code.
///
/// Line comments (`//`) and block comments (`/* */`) are removed, keeping their line
/// breaks; string literals, raw strings (`r"..."`, `r#"..."#`) and character literals are
/// each replaced by one space, keeping the line breaks of raw strings and of strings (but
/// a line break escaped by a backslash inside a string, which is dropped with its
/// backslash). Line breaks inside character literals are dropped. A lifetime's `'` is
/// kept.
pub fn remove_comments_and_strings(source: &str) -> (r: String)
    ensures
        r@ == rust_cleaned(source@),
{
    let chars = chars_of(source);
    let cleaned = strip_chars(&chars);
    string_from_chars(&cleaned)
}

// ---------------------------------------------------------------------------
// Patterns
// ---------------------------------------------------------------------------

/// A `use` statement at the start of a line; group 1 is the path.
pub open spec fn use_pattern() -> Seq<char> {
    "(?m)^\\s*(?:pub\\s+)?use\\s+([a-zA-Z_][a-zA-Z0-9_:]*(?:::[a-zA-Z_*][a-zA-Z0-9_]*)*)"@
}

/// A `use` statement with a braced list; group 1 is the base path, group 2 the list.
pub open spec fn nested_use_pattern() -> Seq<char> {
    "(?m)^\\s*(?:pub\\s+)?use\\s+([a-zA-Z_][a-zA-Z0-9_:]*(?:::[a-zA-Z_*][a-zA-Z0-9_]*)*)::\\{([^}]+)\\}"@
}

/// A `mod name;` declaration at the start of a line; group 1 is the name.
pub open spec fn mod_file_pattern() -> Seq<char> {
    "(?m)^\\s*(?:pub\\s+)?mod\\s+([a-zA-Z_][a-zA-Z0-9_]*)\\s*;"@
}

/// A `mod name {` declaration at the start of a line; group 1 is the name.
pub open spec fn mod_inline_pattern() -> Seq<char> {
    "(?m)^\\s*(?:pub\\s+)?mod\\s+([a-zA-Z_][a-zA-Z0-9_]*)\\s*\\{"@
}

/// A crate declaration at the start of a line; group 1 is the crate's name.
pub open spec fn crate_decl_pattern() -> Seq<char> {
    "(?m)^\\s*extern\\s+crate\\s+([a-zA-Z_][a-zA-Z0-9_]*)"@
}

/// A public item at the start of a line, with an optional restriction such as
/// `pub(crate)`; group 1 is the kind of item, group 2 its name.
pub open spec fn pub_item_pattern() -> Seq<char> {
    "(?m)^\\s*pub(?:\\s*\\([^)]*\\))?\\s+(fn|struct|enum|trait|type|const|static|mod)\\s+([a-zA-Z_][a-zA-Z0-9_]*)"@
}

/// The pattern of a `use` statement, as the regex crate reads it.
fn use_pattern_text() -> (p: &'static str)
    ensures
        p@ == use_pattern(),
{
    "(?m)^\\s*(?:pub\\s+)?use\\s+([a-zA-Z_][a-zA-Z0-9_:]*(?:::[a-zA-Z_*][a-zA-Z0-9_]*)*)"
}

/// The pattern of a braced `use` statement, as the regex crate reads it.
fn nested_use_pattern_text() -> (p: &'static str)
    ensures
        p@ == nested_use_pattern(),
{
    "(?m)^\\s*(?:pub\\s+)?use\\s+([a-zA-Z_][a-zA-Z0-9_:]*(?:::[a-zA-Z_*][a-zA-Z0-9_]*)*)::\\{([^}]+)\\}"
}

/// The pattern of a `mod name;` declaration, as the regex crate reads it.
fn mod_file_pattern_text() -> (p: &'static str)
    ensures
        p@ == mod_file_pattern(),
{
    "(?m)^\\s*(?:pub\\s+)?mod\\s+([a-zA-Z_][a-zA-Z0-9_]*)\\s*;"
}

/// The pattern of a `mod name {` declaration, as the regex crate reads it.
fn mod_inline_pattern_text() -> (p: &'static str)
    ensures
        p@ == mod_inline_pattern(),
{
    "(?m)^\\s*(?:pub\\s+)?mod\\s+([a-zA-Z_][a-zA-Z0-9_]*)\\s*\\{"
}

/// The pattern of a crate declaration, as the regex crate reads it.
fn crate_decl_pattern_text() -> (p: &'static str)
    ensures
        p@ == crate_decl_pattern(),
{
    "(?m)^\\s*extern\\s+crate\\s+([a-zA-Z_][a-zA-Z0-9_]*)"
}

/// The pattern of a public item, as the regex crate reads it.
fn pub_item_pattern_text() -> (p: &'static str)
    ensures
        p@ == pub_item_pattern(),
{
    "(?m)^\\s*pub(?:\\s*\\([^)]*\\))?\\s+(fn|struct|enum|trait|type|const|static|mod)\\s+([a-zA-Z_][a-zA-Z0-9_]*)"
}

// ---------------------------------------------------------------------------
// Imports
// ---------------------------------------------------------------------------

/// Type of import statement in Rust.
#[derive(Clone, Copy, Debug, PartialEq, Eq, Structural)]
pub enum ImportKind {
    /// `use foo::bar;` statement
    Use,
    /// `mod foo;` file reference
    Mod,
    /// `extern crate foo;` (Rust 2015 style, rare in 2021+)
    Extern,
}

/// A single import statement from a Rust file.
#[derive(Debug, Clone, PartialEq, Eq)]
pub struct RustImport {
    /// Import path: "crate::foo::bar", "std::collections", "super::module"
    pub path: String,
    /// Line number (1-indexed) for error messages
    pub line: usize,
    /// Type of import (use, mod, extern crate)
    pub kind: ImportKind,
}

/// An import as plain values: path, line and kind.
pub open spec fn rust_import_view(i: RustImport) -> (Seq<char>, nat, ImportKind) {
    (i.path@, i.line as nat, i.kind)
}

/// The views of a list of imports.
pub open spec fn rust_import_views(v: Seq<RustImport>) -> Seq<(Seq<char>, nat, ImportKind)> {
    v.map_values(|i: RustImport| rust_import_view(i))
}

/// The bytes in which the patterns are matched: the source without comments and literals.
pub open spec fn cleaned_bytes(source: Seq<char>) -> Seq<u8> {
    vstd::utf8::encode_utf8(rust_cleaned(source))
}

/// The imports named by group 1 of the first `upto` matches `spans` in `hay`, each of kind
/// `kind`: for each match, in order, whose group 1 is not empty, lies in `hay` and is valid
/// UTF-8, its text and the line on which it starts.
pub open spec fn named_upto(hay: Seq<u8>, spans: Seq<Seq<Option<(usize, usize)>>>, kind: ImportKind, upto: int) -> Seq<(Seq<char>, nat, ImportKind)>
    decreases upto,
{
    if upto <= 0 {
        seq![]
    } else {
        let rest = named_upto(hay, spans, kind, upto - 1);
        match group_span(spans, upto - 1, 1, hay.len()) {
            Some(g) => if g.0 < g.1 {
                match text_of(hay, g.0 as int, g.1 as int) {
                    Some(t) => rest.push((t, line_at(hay, g.0 as int), kind)),
                    None => rest,
                }
            } else {
                rest
            },
            None => rest,
        }
    }
}

/// The imports named by group 1 of all matches `spans` in `hay`.
pub open spec fn named_imports(hay: Seq<u8>, spans: Seq<Seq<Option<(usize, usize)>>>, kind: ImportKind) -> Seq<(Seq<char>, nat, ImportKind)> {
    named_upto(hay, spans, kind, spans.len() as int)
}

/// Builds the imports named by group 1 of the matches `spans` in `hay`; see
/// `named_imports`.
pub fn named_imports_from_matches(hay: &[u8], spans: &Vec<Vec<Option<(usize, usize)>>>, kind: ImportKind) -> (r: Vec<RustImport>)
    ensures
        rust_import_views(r@) == named_imports(hay@, spans.deep_view(), kind),
{
    let mut r: Vec<RustImport> = Vec::new();
    let mut m: usize = 0;
    while m < spans.len()
        invariant
            m <= spans@.len(),
            spans.deep_view().len() == spans@.len(),
            rust_import_views(r@) == named_upto(hay@, spans.deep_view(), kind, m as int),
        decreases spans.len() - m,
    {
        let ghost before = rust_import_views(r@);
        match get_group(spans, m, 1, hay.len()) {
            Some(g) => if g.0 < g.1 {
                match text_at(hay, g.0, g.1) {
                    Some(t) => {
                        let line = line_number(hay, g.0);
                        let imp = RustImport { path: t, line, kind };
                        r.push(imp);
                        assert(rust_import_views(r@) =~= before.push(rust_import_view(imp)));
                    },
                    None => {},
                }
            } else {
            },
            None => {},
        }
        m += 1;
    }
    r
}

/// The first index at or after `i` holding a comma, or the length of `s`.
pub open spec fn next_comma(s: Seq<char>, i: int) -> int
    decreases s.len() - i,
{
    if i >= s.len() {
        s.len() as int
    } else if s[i] == ',' {
        i
    } else {
        next_comma(s, i + 1)
    }
}

/// The items of a braced list from index `start` on: the texts between commas, trimmed,
/// leaving out those that are empty.
pub open spec fn items_from(s: Seq<char>, start: int) -> Seq<Seq<char>>
    decreases s.len() - start,
{
    if start < 0 || start > s.len() {
        seq![]
    } else {
        let k = next_comma(s, start);
        if start <= k < s.len() {
            let piece = trim(s.subrange(start, k));
            let here = if piece.len() > 0 {
                seq![piece]
            } else {
                seq![]
            };
            here + items_from(s, k + 1)
        } else {
            let piece = trim(s.subrange(start, s.len() as int));
            if piece.len() > 0 {
                seq![piece]
            } else {
                seq![]
            }
        }
    }
}

proof fn lemma_next_comma(s: Seq<char>, i: int, k: int)
    requires
        0 <= i <= k <= s.len(),
        forall|j: int| i <= j < k ==> s[j] != ',',
        k == s.len() || s[k] == ',',
    ensures
        next_comma(s, i) == k,
    decreases k - i,
{
    if i < k {
        lemma_next_comma(s, i + 1, k);
    }
}

proof fn lemma_next_comma_shift(a: Seq<char>, b: Seq<char>, i: int)
    requires
        0 <= i <= b.len(),
    ensures
        next_comma(a + b, a.len() + i) == a.len() + next_comma(b, i),
        i <= next_comma(b, i) <= b.len(),
    decreases b.len() - i,
{
    if i < b.len() {
        assert((a + b)[a.len() + i] == b[i]);
        if b[i] != ',' {
            lemma_next_comma_shift(a, b, i + 1);
        }
    }
}

/// The items of a list do not depend on text before where the scan starts.
proof fn lemma_items_shift(a: Seq<char>, b: Seq<char>, i: int)
    requires
        0 <= i <= b.len(),
    ensures
        items_from(a + b, a.len() + i) == items_from(b, i),
    decreases b.len() - i,
{
    lemma_next_comma_shift(a, b, i);
    let k = next_comma(b, i);
    let ab = a + b;
    if k < b.len() {
        lemma_items_shift(a, b, k + 1);
        assert(ab.subrange(a.len() + i, a.len() + k) =~= b.subrange(i, k));
    } else {
        assert(ab.subrange(a.len() + i, ab.len() as int) =~= b.subrange(i, b.len() as int));
    }
}

proof fn lemma_next_comma_prefix(x: Seq<char>, y: Seq<char>, i: int)
    requires
        0 <= i <= x.len(),
    ensures
        next_comma(x + y, i) == if next_comma(x, i) < x.len() {
            next_comma(x, i)
        } else {
            x.len() + next_comma(y, 0)
        },
        i <= next_comma(x, i) <= x.len(),
    decreases x.len() - i,
{
    if i < x.len() {
        assert((x + y)[i] == x[i]);
        if x[i] != ',' {
            lemma_next_comma_prefix(x, y, i + 1);
        }
    } else {
        lemma_next_comma_shift(x, y, 0);
    }
}

/// The items of `x`, a comma, then `y` are the items of `x` followed by those of `y`.
proof fn lemma_items_concat(x: Seq<char>, y: Seq<char>, i: int)
    requires
        0 <= i <= x.len(),
    ensures
        items_from(x + seq![','] + y, i) == items_from(x, i) + items_from(y, 0),
    decreases x.len() - i,
{
    let c = seq![','] + y;
    let s = x + c;
    assert(x + seq![','] + y =~= s);
    lemma_next_comma_prefix(x, c, i);
    let k = next_comma(x, i);
    if k < x.len() {
        lemma_items_concat(x, y, k + 1);
        assert(s.subrange(i, k) =~= x.subrange(i, k));
        assert(x + seq![','] + y =~= s);
        let piece = trim(x.subrange(i, k));
        let here = if piece.len() > 0 { seq![piece] } else { Seq::<Seq<char>>::empty() };
        assert(here + (items_from(x, k + 1) + items_from(y, 0)) =~= (here + items_from(x, k + 1)) + items_from(y, 0));
    } else {
        assert(next_comma(c, 0) == 0);
        assert(s.subrange(i, x.len() as int) =~= x.subrange(i, x.len() as int));
        lemma_items_shift(x + seq![','], y, 0);
        assert(x + seq![','] + y =~= s);
        assert((x + seq![',']).len() + 0 == x.len() + 1);
        let piece = trim(x.subrange(i, x.len() as int));
        let here = if piece.len() > 0 { seq![piece] } else { Seq::<Seq<char>>::empty() };
        assert(items_from(x, i) == here);
    }
}

/// The pieces of a list that are not blank once trimmed, trimmed, in order.
pub open spec fn kept_pieces(pieces: Seq<Seq<char>>) -> Seq<Seq<char>>
    decreases pieces.len(),
{
    if pieces.len() == 0 {
        seq![]
    } else {
        kept_pieces(pieces.drop_last()) + if trim(pieces.last()).len() > 0 {
            seq![trim(pieces.last())]
        } else {
            seq![]
        }
    }
}

/// A braced list written as pieces separated by commas gives one item for every piece
/// that is not blank, trimmed, in order, whatever the piece holds (a path such as
/// `io::Read` included).
pub proof fn law_list_items_keep_every_piece(pieces: Seq<Seq<char>>)
    requires
        pieces.len() >= 1,
        forall|i: int, j: int| 0 <= i < pieces.len() && 0 <= j < pieces[i].len() ==> #[trigger] pieces[i][j] != ',',
    ensures
        items_from(join(pieces, seq![',']), 0) == kept_pieces(pieces),
    decreases pieces.len(),
{
    let last = pieces.last();
    assert(forall|j: int| 0 <= j < last.len() ==> last[j] != ',') by {
        assert forall|j: int| 0 <= j < last.len() implies last[j] != ',' by {
            assert(pieces[pieces.len() - 1][j] != ',');
        }
    }
    lemma_next_comma(last, 0, last.len() as int);
    let single = if trim(last).len() > 0 { seq![trim(last)] } else { Seq::<Seq<char>>::empty() };
    assert(items_from(last, 0) == single) by {
        assert(last.subrange(0, last.len() as int) =~= last);
    }
    if pieces.len() == 1 {
        assert(kept_pieces(pieces.drop_last()) =~= Seq::<Seq<char>>::empty());
        assert(Seq::<Seq<char>>::empty() + single =~= single);
    } else {
        let init = pieces.drop_last();
        assert forall|i: int, j: int| 0 <= i < init.len() && 0 <= j < init[i].len() implies #[trigger] init[i][j] != ',' by {
            assert(init[i] == pieces[i]);
        }
        law_list_items_keep_every_piece(init);
        lemma_items_concat(join(init, seq![',']), last, 0);
    }
}

/// The items of a braced list; see `items_from`.
fn list_items(s: &Vec<char>) -> (r: Vec<Vec<char>>)
    ensures
        r.deep_view() == items_from(s@, 0),
{
    let mut r: Vec<Vec<char>> = Vec::new();
    let mut start: usize = 0;
    let mut done = false;
    while !done
        invariant
            start <= s@.len(),
            !done ==> r.deep_view() + items_from(s@, start as int) == items_from(s@, 0),
            done ==> r.deep_view() == items_from(s@, 0),
        decreases s@.len() - start, if done { 0int } else { 1int },
    {
        let mut k: usize = start;
        while k < s.len() && s[k] != ','
            invariant
                start <= k <= s@.len(),
                forall|j: int| start <= j < k ==> s@[j] != ',',
            decreases s.len() - k,
        {
            k += 1;
        }
        proof {
            lemma_next_comma(s@, start as int, k as int);
        }
        let ghost old_r = r.deep_view();
        let piece = sub_vec(s, start, k);
        let t = trim_vec(&piece);
        let ghost here = if t@.len() > 0 { seq![t@] } else { seq![] };
        if t.len() > 0 {
            assert(t.deep_view() =~= t@);
            r.push(t);
            assert(r.deep_view() =~= old_r + here);
        } else {
            assert(r.deep_view() =~= old_r + here);
        }
        if k < s.len() {
            assert(items_from(s@, start as int) == here + items_from(s@, k + 1));
            assert(r.deep_view() + items_from(s@, k + 1) =~= old_r + (here + items_from(s@, k + 1)));
            start = k + 1;
        } else {
            assert(items_from(s@, start as int) == here);
            done = true;
        }
    }
    r
}

/// The imports of the first `upto` braced `use` matches `spans` in `hay`: for each match,
/// in order, whose base path (group 1, not empty) and list (group 2) lie in `hay` and are
/// valid UTF-8, one import `base::item` per item of the list, on the line where the base
/// path starts.
pub open spec fn nested_upto(hay: Seq<u8>, spans: Seq<Seq<Option<(usize, usize)>>>, upto: int) -> Seq<(Seq<char>, nat, ImportKind)>
    decreases upto,
{
    if upto <= 0 {
        seq![]
    } else {
        let rest = nested_upto(hay, spans, upto - 1);
        match (group_span(spans, upto - 1, 1, hay.len()), group_span(spans, upto - 1, 2, hay.len())) {
            (Some(b), Some(l)) => if b.0 < b.1 {
                match (text_of(hay, b.0 as int, b.1 as int), text_of(hay, l.0 as int, l.1 as int)) {
                    (Some(base), Some(list)) => rest + items_from(list, 0).map_values(
                        |item: Seq<char>| item_import(base, item, line_at(hay, b.0 as int)),
                    ),
                    _ => rest,
                }
            } else {
                rest
            },
            _ => rest,
        }
    }
}

/// The import of one item of a braced list: `base::item`.
pub open spec fn item_import(base: Seq<char>, item: Seq<char>, line: nat) -> (Seq<char>, nat, ImportKind) {
    (base + "::"@ + item, line, ImportKind::Use)
}

/// Whether some import of `acc` stands on line `line`.
pub open spec fn has_line(acc: Seq<(Seq<char>, nat, ImportKind)>, line: nat) -> bool {
    exists|j: int| 0 <= j < acc.len() && #[trigger] acc[j].1 == line
}

/// The `use` imports found by the braced matches `nested` and the first `upto` plain
/// matches `simple` in `hay`: first those of the braced matches, then for each plain
/// match, in order, whose path (group 1, not empty) lies in `hay` and is valid UTF-8, that
/// path on the line where it starts, unless an import already found stands on that line.
pub open spec fn uses_upto(hay: Seq<u8>, nested: Seq<Seq<Option<(usize, usize)>>>, simple: Seq<Seq<Option<(usize, usize)>>>, upto: int) -> Seq<(Seq<char>, nat, ImportKind)>
    decreases upto,
{
    if upto <= 0 {
        nested_upto(hay, nested, nested.len() as int)
    } else {
        let acc = uses_upto(hay, nested, simple, upto - 1);
        match group_span(simple, upto - 1, 1, hay.len()) {
            Some(g) => if g.0 < g.1 {
                match text_of(hay, g.0 as int, g.1 as int) {
                    Some(p) => if p.len() > 0 && !has_line(acc, line_at(hay, g.0 as int)) {
                        acc.push((p, line_at(hay, g.0 as int), ImportKind::Use))
                    } else {
                        acc
                    },
                    None => acc,
                }
            } else {
                acc
            },
            None => acc,
        }
    }
}

/// The `use` imports found by all braced matches `nested` and plain matches `simple`.
pub open spec fn use_imports(hay: Seq<u8>, nested: Seq<Seq<Option<(usize, usize)>>>, simple: Seq<Seq<Option<(usize, usize)>>>) -> Seq<(Seq<char>, nat, ImportKind)> {
    uses_upto(hay, nested, simple, simple.len() as int)
}

fn line_taken(acc: &Vec<RustImport>, line: usize) -> (b: bool)
    ensures
        b == has_line(rust_import_views(acc@), line as nat),
{
    let ghost views = rust_import_views(acc@);
    let mut j: usize = 0;
    while j < acc.len()
        invariant
            j <= acc@.len(),
            views == rust_import_views(acc@),
            forall|k: int| 0 <= k < j ==> views[k].1 != line,
        decreases acc.len() - j,
    {
        if acc[j].line == line {
            assert(views[j as int].1 == line);
            return true;
        }
        j += 1;
    }
    false
}

/// Builds the `use` imports from the braced matches `nested` and the plain matches
/// `simple`; see `use_imports`.
pub fn use_imports_from_matches(
    hay: &[u8],
    nested: &Vec<Vec<Option<(usize, usize)>>>,
    simple: &Vec<Vec<Option<(usize, usize)>>>,
) -> (r: Vec<RustImport>)
    ensures
        rust_import_views(r@) == use_imports(hay@, nested.deep_view(), simple.deep_view()),
{
    let sep = chars_of("::");
    let mut r: Vec<RustImport> = Vec::new();
    let mut m: usize = 0;
    while m < nested.len()
        invariant
            m <= nested@.len(),
            nested.deep_view().len() == nested@.len(),
            sep@ == "::"@,
            rust_import_views(r@) == nested_upto(hay@, nested.deep_view(), m as int),
        decreases nested.len() - m,
    {
        let ghost before = rust_import_views(r@);
        match (get_group(nested, m, 1, hay.len()), get_group(nested, m, 2, hay.len())) {
            (Some(b), Some(l)) => if b.0 < b.1 {
                match (text_at(hay, b.0, b.1), text_at(hay, l.0, l.1)) {
                    (Some(base), Some(list)) => {
                        let line = line_number(hay, b.0);
                        let base_chars = chars_of(base.as_str());
                        let list_chars = chars_of(list.as_str());
                        let items = list_items(&list_chars);
                        let ghost iv = items.deep_view();
                        let mut k: usize = 0;
                        while k < items.len()
                            invariant
                                k <= items@.len(),
                                iv == items.deep_view(),
                                iv.len() == items@.len(),
                                sep@ == "::"@,
                                base_chars@ == base@,
                                rust_import_views(r@) == before + iv.take(k as int).map_values(
                                    |item: Seq<char>| item_import(base@, item, line as nat),
                                ),
                            decreases items.len() - k,
                        {
                            let ghost before_k = rust_import_views(r@);
                            let mut path: Vec<char> = Vec::new();
                            append_all(&mut path, &base_chars);
                            append_all(&mut path, &sep);
                            append_all(&mut path, &items[k]);
                            assert(items@[k as int]@ == iv[k as int]);
                            assert(path@ =~= base@ + "::"@ + iv[k as int]);
                            let imp = RustImport { path: string_from_chars(&path), line, kind: ImportKind::Use };
                            r.push(imp);
                            assert(rust_import_views(r@) =~= before_k.push(rust_import_view(imp)));
                            let ghost f = |item: Seq<char>| item_import(base@, item, line as nat);
                            assert(rust_import_view(imp) == f(iv[k as int]));
                            assert(iv.take(k + 1).map_values(f) =~= iv.take(k as int).map_values(f).push(f(iv[k as int])));
                            assert(before + iv.take(k + 1).map_values(f) =~= (before + iv.take(k as int).map_values(f)).push(f(iv[k as int])));
                            k += 1;
                        }
                        assert(iv.take(k as int) =~= iv);
                    },
                    _ => {},
                }
            } else {
            },
            _ => {},
        }
        m += 1;
    }
    assert(rust_import_views(r@) == uses_upto(hay@, nested.deep_view(), simple.deep_view(), 0));
    let mut m: usize = 0;
    while m < simple.len()
        invariant
            m <= simple@.len(),
            simple.deep_view().len() == simple@.len(),
            rust_import_views(r@) == uses_upto(hay@, nested.deep_view(), simple.deep_view(), m as int),
        decreases simple.len() - m,
    {
        let ghost before = rust_import_views(r@);
        match get_group(simple, m, 1, hay.len()) {
            Some(g) => if g.0 < g.1 {
                match text_at(hay, g.0, g.1) {
                    Some(p) => {
                        let line = line_number(hay, g.0);
                        if !p.as_str().is_empty() && !line_taken(&r, line) {
                            proof {
                                assert(p@.len() > 0);
                            }
                            let imp = RustImport { path: p, line, kind: ImportKind::Use };
                            r.push(imp);
                            assert(rust_import_views(r@) =~= before.push(rust_import_view(imp)));
                        } else {
                            proof {
                                if p@.len() > 0 {
                                    assert(has_line(before, line as nat));
                                }
                            }
                        }
                    },
                    None => {},
                }
            } else {
            },
            None => {},
        }
        m += 1;
    }
    r
}

/// The `use` imports of a Rust source text; see `use_imports`.
pub open spec fn rust_use_imports(source: Seq<char>) -> Seq<(Seq<char>, nat, ImportKind)> {
    let hay = cleaned_bytes(source);
    use_imports(hay, regex_spans(nested_use_pattern(), hay), regex_spans(use_pattern(), hay))
}

/// Extract all `use` statements from Rust source code.
///
/// Comments and literals are removed first. A braced statement such as
/// `use foo::{bar, baz};` gives one import per item (`foo::bar`, `foo::baz`); then each
/// plain statement gives its path, unless an import was already found on its line. Each
/// import carries its 1-based line and the kind `Use`.
pub fn extract_use_statements(source: &str) -> (r: Vec<RustImport>)
    ensures
        rust_import_views(r@) == rust_use_imports(source@),
{
    let cleaned = remove_comments_and_strings(source);
    let hay = cleaned.as_str().as_bytes();
    let nested = regex_captures(nested_use_pattern_text(), hay);
    let simple = regex_captures(use_pattern_text(), hay);
    use_imports_from_matches(hay, &nested, &simple)
}

/// The `mod name;` imports of a Rust source text.
pub open spec fn rust_mod_imports(source: Seq<char>) -> Seq<(Seq<char>, nat, ImportKind)> {
    let hay = cleaned_bytes(source);
    named_imports(hay, regex_spans(mod_file_pattern(), hay), ImportKind::Mod)
}

/// The names of the inline modules (`mod name {`) of a Rust source text.
pub open spec fn rust_inline_mods(source: Seq<char>) -> Seq<Seq<char>> {
    let hay = cleaned_bytes(source);
    group_texts(hay, regex_spans(mod_inline_pattern(), hay), 1)
}

/// Extract all `mod` declarations from Rust source code.
///
/// Returns the file references `mod foo;` as imports of kind `Mod`, and the names of the
/// inline modules `mod foo { }`, each in order; declarations in comments and literals do
/// not count.
pub fn extract_mod_declarations(source: &str) -> (r: (Vec<RustImport>, Vec<String>))
    ensures
        rust_import_views(r.0@) == rust_mod_imports(source@),
        r.1@.map_values(|s: String| s@) == rust_inline_mods(source@),
{
    let cleaned = remove_comments_and_strings(source);
    let hay = cleaned.as_str().as_bytes();
    let file_spans = regex_captures(mod_file_pattern_text(), hay);
    let file_mods = named_imports_from_matches(hay, &file_spans, ImportKind::Mod);
    let inline_spans = regex_captures(mod_inline_pattern_text(), hay);
    let inline_mods = texts_of_group(hay, &inline_spans, 1);
    (file_mods, inline_mods)
}

/// The `extern crate` imports of a Rust source text.
pub open spec fn rust_crate_imports(source: Seq<char>) -> Seq<(Seq<char>, nat, ImportKind)> {
    let hay = cleaned_bytes(source);
    named_imports(hay, regex_spans(crate_decl_pattern(), hay), ImportKind::Extern)
}

/// Extract all `extern crate` declarations from Rust source code, in order, as imports of
/// kind `Extern`.
///
/// These are rare in Rust 2021 edition but still supported.
pub fn extract_extern_crates(source: &str) -> (r: Vec<RustImport>)
    ensures
        rust_import_views(r@) == rust_crate_imports(source@),
{
    let cleaned = remove_comments_and_strings(source);
    let hay = cleaned.as_str().as_bytes();
    let spans = regex_captures(crate_decl_pattern_text(), hay);
    named_imports_from_matches(hay, &spans, ImportKind::Extern)
}

/// The names of the public items of a Rust source text.
pub open spec fn rust_pub_items(source: Seq<char>) -> Seq<Seq<char>> {
    let hay = cleaned_bytes(source);
    group_texts(hay, regex_spans(pub_item_pattern(), hay), 2)
}

/// Extract the names of all public declarations from Rust source code, in order.
///
/// Finds `pub fn`, `pub struct`, `pub enum`, `pub trait`, `pub type`, `pub const`,
/// `pub static` and `pub mod` items, also with a restriction such as `pub(crate)`,
/// `pub(super)` or `pub(in path)`.
pub fn extract_pub_items(source: &str) -> (r: Vec<String>)
    ensures
        r@.map_values(|s: String| s@) == rust_pub_items(source@),
{
    let cleaned = remove_comments_and_strings(source);
    let hay = cleaned.as_str().as_bytes();
    let spans = regex_captures(pub_item_pattern_text(), hay);
    texts_of_group(hay, &spans, 2)
}

// ---------------------------------------------------------------------------
// Module documentation
// ---------------------------------------------------------------------------

/// The opening of a block doc comment.
pub open spec fn block_doc_open() -> Seq<char> {
    "/*!"@
}

/// The end of a block comment.
pub open spec fn block_end() -> Seq<char> {
    "*/"@
}

/// The doc lines found in `lines[i..]`, given the scan so far: whether a block doc comment
/// is open, the text gathered for it, and the doc lines found before.
///
/// After leading whitespace, a line opening `/*!` starts (or continues) a block: text up
/// to a `*/` on the same line closes it at once, else the rest of the line, trimmed, is
/// gathered. Inside a block, a line with `*/` adds a space and its text before `*/`,
/// trimmed, and closes the block; another line adds a space and its text without leading
/// `*`, trimmed. A closed block gives one doc line, its gathered text trimmed. Outside a
/// block, a `//!` line gives its text; blank lines are skipped while no doc line was found;
/// any other line ends the scan.
pub open spec fn rust_doc_from(lines: Seq<Seq<char>>, i: int, in_block: bool, block: Seq<char>, doc: Seq<Seq<char>>) -> Seq<Seq<char>>
    decreases lines.len() - i,
{
    if i < 0 || i >= lines.len() {
        doc
    } else {
        let t = trim_start(lines[i]);
        if has_prefix(t, block_doc_open()) {
            let content = t.skip(block_doc_open().len() as int);
            match find(content, block_end()) {
                Some(e) => rust_doc_from(lines, i + 1, false, seq![], doc.push(trim(block + content.take(e)))),
                None => rust_doc_from(lines, i + 1, true, block + trim(content), doc),
            }
        } else if in_block {
            match find(t, block_end()) {
                Some(e) => rust_doc_from(lines, i + 1, false, seq![], doc.push(trim(block + seq![' '] + trim(t.take(e))))),
                None => rust_doc_from(lines, i + 1, true, block + seq![' '] + trim(trim_start_char(t, '*')), doc),
            }
        } else if has_prefix(t, doc_marker()) {
            rust_doc_from(lines, i + 1, false, block, doc.push(doc_text(t)))
        } else if t.len() == 0 && doc.len() == 0 {
            rust_doc_from(lines, i + 1, false, block, doc)
        } else {
            doc
        }
    }
}

/// The module documentation of a Rust source: its doc lines joined by newlines, or none.
pub open spec fn rust_doc_comment(src: Seq<char>) -> Option<Seq<char>> {
    let d = rust_doc_from(lines_of(src), 0, false, seq![], seq![]);
    if d.len() == 0 {
        None
    } else {
        Some(join(d, seq!['\n']))
    }
}

/// Extracts module-level documentation from the `//!` comments, and the `/*! ... */` block
/// doc comments, at the start of a Rust file; see `rust_doc_from`.
pub fn extract_rust_doc_comment(source: &str) -> (r: Option<String>)
    ensures
        r matches Some(s) ==> rust_doc_comment(source@) == Some(s@),
        r is None ==> rust_doc_comment(source@) is None,
{
    let chars = chars_of(source);
    let lines = split_lines(&chars);
    let marker = chars_of("//!");
    let open = chars_of("/*!");
    let close = chars_of("*/");
    let ghost all = lines.deep_view();
    let ghost total = rust_doc_from(all, 0, false, seq![], seq![]);
    let mut doc: Vec<Vec<char>> = Vec::new();
    let mut block: Vec<char> = Vec::new();
    let mut in_block = false;
    let mut i: usize = 0;
    let mut stop = false;
    assert(doc.deep_view() =~= seq![]);
    assert(block@ =~= seq![]);
    while i < lines.len() && !stop
        invariant
            i <= lines@.len(),
            all == lines.deep_view(),
            all == lines_of(source@),
            total == rust_doc_from(all, 0, false, seq![], seq![]),
            marker@ == doc_marker(),
            open@ == block_doc_open(),
            close@ == block_end(),
            !stop ==> rust_doc_from(all, i as int, in_block, block@, doc.deep_view()) == total,
            stop ==> doc.deep_view() == total,
        decreases lines.len() - i, if stop { 0int } else { 1int },
    {
        let t = trim_start_vec(&lines[i]);
        assert(lines@[i as int]@ == all[i as int]);
        let ghost dv = doc.deep_view();
        let ghost bv = block@;
        if starts_with_chars(&t, &open) {
            let content = sub_vec(&t, open.len(), t.len());
            assert(content@ =~= t@.skip(block_doc_open().len() as int));
            match find_chars(&content, &close) {
                Some(e) => {
                    let head = sub_vec(&content, 0, e);
                    assert(head@ =~= content@.take(e as int));
                    append_all(&mut block, &head);
                    let d = trim_vec(&block);
                    assert(d.deep_view() =~= d@);
                    doc.push(d);
                    assert(doc.deep_view() =~= dv.push(trim(bv + content@.take(e as int))));
                    block = Vec::new();
                    assert(block@ =~= seq![]);
                    in_block = false;
                },
                None => {
                    let tc = trim_vec(&content);
                    append_all(&mut block, &tc);
                    in_block = true;
                },
            }
            i += 1;
        } else if in_block {
            match find_chars(&t, &close) {
                Some(e) => {
                    let head = sub_vec(&t, 0, e);
                    assert(head@ =~= t@.take(e as int));
                    let th = trim_vec(&head);
                    block.push(' ');
                    append_all(&mut block, &th);
                    assert(block@ =~= bv + seq![' '] + trim(t@.take(e as int)));
                    let d = trim_vec(&block);
                    assert(d.deep_view() =~= d@);
                    doc.push(d);
                    assert(doc.deep_view() =~= dv.push(trim(bv + seq![' '] + trim(t@.take(e as int)))));
                    block = Vec::new();
                    assert(block@ =~= seq![]);
                    in_block = false;
                },
                None => {
                    let stripped = trim_start_char_vec(&t, '*');
                    let ts = trim_vec(&stripped);
                    block.push(' ');
                    append_all(&mut block, &ts);
                    assert(block@ =~= bv + seq![' '] + trim(trim_start_char(t@, '*')));
                },
            }
            i += 1;
        } else if starts_with_chars(&t, &marker) {
            let d = doc_text_vec(&t, &marker);
            assert(d.deep_view() =~= d@);
            doc.push(d);
            assert(doc.deep_view() =~= dv.push(doc_text(t@)));
            i += 1;
        } else if t.len() == 0 && doc.len() == 0 {
            i += 1;
        } else {
            stop = true;
        }
    }
    if doc.len() == 0 {
        None
    } else {
        let mut sep: Vec<char> = Vec::new();
        sep.push('\n');
        assert(sep@ =~= seq!['\n']);
        let joined = join_vec(&doc, &sep);
        Some(string_from_chars(&joined))
    }
}

// ---------------------------------------------------------------------------
// Whole files
// ---------------------------------------------------------------------------

/// Parsed Rust file with imports, exports, and metadata.
#[derive(Debug, Clone)]
pub struct RustFile {
    /// Absolute path to the source file
    pub path: String,
    /// All use statements and mod declarations found in the file
    pub imports: Vec<RustImport>,
    /// Inline module names declared with `mod foo { }` syntax
    pub mods: Vec<String>,
    /// Top-level documentation comment (//! ...) or module-level doc comments
    pub doc_comment: Option<String>,
    /// Public declarations (pub fn, pub struct, pub enum, etc.)
    pub exports: Vec<String>,
    /// Lines of code (non-comment, non-blank): the lines that hold a non-blank character
    /// outside every comment
    pub loc: usize,
}

/// The state after one character `c` of a string, raw string or character literal,
/// as `strip_from` moves.
pub open spec fn literal_next(st: RustScan, c: char) -> RustScan {
    match st {
        RustScan::Str(escaped) => if escaped {
            RustScan::Str(false)
        } else if c == '\\' {
            RustScan::Str(true)
        } else if c == '"' {
            RustScan::Code
        } else {
            RustScan::Str(false)
        },
        RustScan::Chr(escaped) => if escaped {
            RustScan::Chr(false)
        } else if c == '\\' {
            RustScan::Chr(true)
        } else if c == '\'' {
            RustScan::Code
        } else {
            RustScan::Chr(false)
        },
        RustScan::RawOpen(h) => if c == '#' {
            RustScan::RawOpen(h + 1)
        } else {
            RustScan::RawBody(h)
        },
        RustScan::RawBody(h) => if c == '"' {
            if h == 0 {
                RustScan::Code
            } else {
                RustScan::RawClose(h, 0)
            }
        } else {
            RustScan::RawBody(h)
        },
        RustScan::RawClose(h, found) => if c == '#' {
            if found + 1 >= h {
                RustScan::Code
            } else {
                RustScan::RawClose(h, found + 1)
            }
        } else if c == '"' {
            RustScan::RawClose(h, 0)
        } else {
            RustScan::RawBody(h)
        },
        _ => st,
    }
}

/// The state after code character `s[i]` that opens no comment: a raw string, string or
/// character literal may start, as in `strip_from`.
pub open spec fn code_next(s: Seq<char>, i: int) -> RustScan {
    let c = s[i];
    let next_is = |x: char| i + 1 < s.len() && s[i + 1] == x;
    if c == 'r' && (next_is('"') || next_is('#')) {
        RustScan::RawOpen(0)
    } else if c == '"' {
        RustScan::Str(false)
    } else if c == '\'' && (next_is('\\') || (i + 2 < s.len() && s[i + 2] == '\'')) {
        RustScan::Chr(false)
    } else {
        RustScan::Code
    }
}

/// What is left of `s[i..]`, starting in state `st`, once comments alone are removed: a
/// line comment up to its newline and a block comment up to `*/` vanish (their newlines
/// stay); code and literals, with their contents, are kept. Comments are recognised as
/// `strip_from` recognises them.
pub open spec fn decomment_from(s: Seq<char>, i: int, st: RustScan) -> Seq<char>
    decreases s.len() - i,
{
    if i < 0 || i >= s.len() {
        seq![]
    } else {
        let c = s[i];
        let next_is = |x: char| i + 1 < s.len() && s[i + 1] == x;
        match st {
            RustScan::Code => if c == '/' && next_is('/') {
                decomment_from(s, i + 2, RustScan::LineComment)
            } else if c == '/' && next_is('*') {
                decomment_from(s, i + 2, RustScan::BlockComment)
            } else {
                seq![c] + decomment_from(s, i + 1, code_next(s, i))
            },
            RustScan::LineComment => if c == '\n' {
                seq!['\n'] + decomment_from(s, i + 1, RustScan::Code)
            } else {
                decomment_from(s, i + 1, RustScan::LineComment)
            },
            RustScan::BlockComment => if c == '*' && next_is('/') {
                decomment_from(s, i + 2, RustScan::Code)
            } else if c == '\n' {
                seq!['\n'] + decomment_from(s, i + 1, RustScan::BlockComment)
            } else {
                decomment_from(s, i + 1, RustScan::BlockComment)
            },
            _ => seq![c] + decomment_from(s, i + 1, literal_next(st, c)),
        }
    }
}

/// The text of `s` with its comments removed and everything else kept.
pub open spec fn decommented(s: Seq<char>) -> Seq<char> {
    decomment_from(s, 0, RustScan::Code)
}

/// A line that holds a character other than whitespace.
pub open spec fn is_code_line(line: Seq<char>) -> bool {
    trim_start(line).len() > 0
}

/// The number of non-blank lines among the first `upto` lines.
pub open spec fn code_lines_upto(lines: Seq<Seq<char>>, upto: int) -> nat
    decreases upto,
{
    if upto <= 0 {
        0
    } else {
        code_lines_upto(lines, upto - 1) + if is_code_line(lines[upto - 1]) { 1nat } else { 0nat }
    }
}

/// The number of lines of code of a text: the lines that hold a non-blank character
/// outside every comment (the lines of the text with its comments removed that are not
/// blank).
pub open spec fn code_line_count(s: Seq<char>) -> nat {
    code_lines_upto(lines_of(decommented(s)), lines_of(decommented(s)).len() as int)
}

proof fn lemma_decomment_keeps_lines(s: Seq<char>, i: int, st: RustScan)
    requires
        0 <= i <= s.len(),
    ensures
        newlines(decomment_from(s, i, st)) == newlines(s.subrange(i, s.len() as int)),
    decreases s.len() - i,
{
    if i < s.len() {
        let c = s[i];
        let next_is = |x: char| i + 1 < s.len() && s[i + 1] == x;
        let (head, j, nst): (Seq<char>, int, RustScan) = match st {
            RustScan::Code => if c == '/' && next_is('/') {
                (seq![], i + 2, RustScan::LineComment)
            } else if c == '/' && next_is('*') {
                (seq![], i + 2, RustScan::BlockComment)
            } else {
                (seq![c], i + 1, code_next(s, i))
            },
            RustScan::LineComment => if c == '\n' {
                (seq!['\n'], i + 1, RustScan::Code)
            } else {
                (seq![], i + 1, RustScan::LineComment)
            },
            RustScan::BlockComment => if c == '*' && next_is('/') {
                (seq![], i + 2, RustScan::Code)
            } else if c == '\n' {
                (seq!['\n'], i + 1, RustScan::BlockComment)
            } else {
                (seq![], i + 1, RustScan::BlockComment)
            },
            _ => (seq![c], i + 1, literal_next(st, c)),
        };
        lemma_decomment_keeps_lines(s, j, nst);
        assert(decomment_from(s, i, st) == head + decomment_from(s, j, nst));
        lemma_newlines_split(s, i, j);
        lemma_newlines_short(s, i, j);
        lemma_newlines_concat(head, decomment_from(s, j, nst));
        if head.len() == 1 {
            assert(head.drop_first() =~= Seq::<char>::empty());
            assert(newlines(head) == (if head[0] == '\n' { 1nat } else { 0nat }) + newlines(head.drop_first()));
        } else {
            assert(head =~= Seq::<char>::empty());
        }
    } else {
        assert(s.subrange(i, s.len() as int) =~= Seq::<char>::empty());
    }
}

/// Removing comments alone keeps every line break, so the lines of the result are the
/// lines of the source, each without its comments; `loc` counts the non-blank ones.
pub proof fn law_decomment_keeps_lines(s: Seq<char>)
    ensures
        newlines(decommented(s)) == newlines(s),
{
    lemma_decomment_keeps_lines(s, 0, RustScan::Code);
    assert(s.subrange(0, s.len() as int) =~= s);
}

/// The state after literal character `c`.
fn literal_step(st: Scan, c: char, i: usize) -> (r: Scan)
    requires
        scan_bounded(st, i as int),
        i < usize::MAX,
    ensures
        r@ == literal_next(st@, c),
        scan_bounded(r, i + 1),
{
    match st {
        Scan::Str(escaped) => if escaped {
            Scan::Str(false)
        } else if c == '\\' {
            Scan::Str(true)
        } else if c == '"' {
            Scan::Code
        } else {
            Scan::Str(false)
        },
        Scan::Chr(escaped) => if escaped {
            Scan::Chr(false)
        } else if c == '\\' {
            Scan::Chr(true)
        } else if c == '\'' {
            Scan::Code
        } else {
            Scan::Chr(false)
        },
        Scan::RawOpen(h) => if c == '#' {
            Scan::RawOpen(h + 1)
        } else {
            Scan::RawBody(h)
        },
        Scan::RawBody(h) => if c == '"' {
            if h == 0 {
                Scan::Code
            } else {
                Scan::RawClose(h, 0)
            }
        } else {
            Scan::RawBody(h)
        },
        Scan::RawClose(h, found) => if c == '#' {
            if found + 1 >= h {
                Scan::Code
            } else {
                Scan::RawClose(h, found + 1)
            }
        } else if c == '"' {
            Scan::RawClose(h, 0)
        } else {
            Scan::RawBody(h)
        },
        Scan::Code => Scan::Code,
        Scan::LineComment => Scan::LineComment,
        Scan::BlockComment => Scan::BlockComment,
    }
}

/// The characters of `s` with comments removed; see `decomment_from`.
fn decomment_chars(s: &Vec<char>) -> (r: Vec<char>)
    ensures
        r@ == decommented(s@),
{
    let mut out: Vec<char> = Vec::new();
    let mut st = Scan::Code;
    let mut i: usize = 0;
    while i < s.len()
        invariant
            i <= s@.len(),
            scan_bounded(st, i as int),
            out@ + decomment_from(s@, i as int, st@) == decommented(s@),
        decreases s.len() - i,
    {
        let c = s[i];
        let next_slash = i + 1 < s.len() && s[i + 1] == '/';
        let next_star = i + 1 < s.len() && s[i + 1] == '*';
        let next_quote = i + 1 < s.len() && s[i + 1] == '"';
        let next_hash = i + 1 < s.len() && s[i + 1] == '#';
        let next_backslash = i + 1 < s.len() && s[i + 1] == '\\';
        let third_quote = i + 1 < s.len() && i + 2 < s.len() && s[i + 2] == '\'';
        let ghost before = out@;
        let ghost i0 = i as int;
        let ghost st0 = st@;
        match st {
            Scan::Code => {
                if c == '/' && next_slash {
                    st = Scan::LineComment;
                    i += 2;
                } else if c == '/' && next_star {
                    st = Scan::BlockComment;
                    i += 2;
                } else {
                    out.push(c);
                    if c == 'r' && (next_quote || next_hash) {
                        st = Scan::RawOpen(0);
                    } else if c == '"' {
                        st = Scan::Str(false);
                    } else if c == '\'' && (next_backslash || third_quote) {
                        st = Scan::Chr(false);
                    }
                    assert(st@ == code_next(s@, i0));
                    i += 1;
                }
            },
            Scan::LineComment => {
                if c == '\n' {
                    out.push('\n');
                    st = Scan::Code;
                }
                i += 1;
            },
            Scan::BlockComment => {
                if c == '*' && next_slash {
                    st = Scan::Code;
                    i += 2;
                } else {
                    if c == '\n' {
                        out.push('\n');
                    }
                    i += 1;
                }
            },
            _ => {
                out.push(c);
                st = literal_step(st, c, i);
                i += 1;
            },
        }
        assert(decomment_from(s@, i0, st0) == out@.subrange(before.len() as int, out@.len() as int) + decomment_from(s@, i as int, st@));
        assert(out@ =~= before + out@.subrange(before.len() as int, out@.len() as int));
    }
    assert(out@ + decomment_from(s@, i as int, st@) =~= out@);
    out
}

fn is_code_line_vec(line: &Vec<char>) -> (b: bool)
    ensures
        b == is_code_line(line@),
{
    let t = trim_start_vec(line.as_slice());
    t.len() > 0
}

/// The number of lines of `lines` that hold code.
fn count_code_lines(lines: &Vec<Vec<char>>) -> (n: usize)
    ensures
        n == code_lines_upto(lines.deep_view(), lines.deep_view().len() as int),
{
    let mut n: usize = 0;
    let mut i: usize = 0;
    while i < lines.len()
        invariant
            i <= lines.len(),
            n <= i,
            n == code_lines_upto(lines.deep_view(), i as int),
        decreases lines.len() - i,
    {
        let b = is_code_line_vec(&lines[i]);
        proof {
            assert(lines.deep_view()[i as int] == lines[i as int]@);
        }
        if b {
            n += 1;
        }
        i += 1;
    }
    n
}

/// Parse the text of a Rust file: its `use` imports, then its `extern crate` imports, then
/// its `mod name;` imports; its inline modules; its module documentation; its public items;
/// and its number of lines that hold a non-blank character outside every comment.
pub fn parse_rust_source(path: String, source: &str) -> (r: RustFile)
    ensures
        r.path@ == path@,
        rust_import_views(r.imports@) == rust_use_imports(source@) + rust_crate_imports(source@) + rust_mod_imports(source@),
        r.mods@.map_values(|s: String| s@) == rust_inline_mods(source@),
        r.doc_comment matches Some(d) ==> rust_doc_comment(source@) == Some(d@),
        r.doc_comment is None ==> rust_doc_comment(source@) is None,
        r.exports@.map_values(|s: String| s@) == rust_pub_items(source@),
        r.loc == code_line_count(source@),
{
    let mut imports = extract_use_statements(source);
    let mut crates = extract_extern_crates(source);
    let (mut mod_imports, inline_mods) = extract_mod_declarations(source);
    let ghost a = imports@;
    let ghost b = crates@;
    let ghost c = mod_imports@;
    imports.append(&mut crates);
    imports.append(&mut mod_imports);
    assert(imports@ =~= a + b + c);
    assert(rust_import_views(imports@) =~= rust_import_views(a) + rust_import_views(b) + rust_import_views(c));
    let doc_comment = extract_rust_doc_comment(source);
    let exports = extract_pub_items(source);
    let chars = chars_of(source);
    let code = decomment_chars(&chars);
    let lines = split_lines(&code);
    let loc = count_code_lines(&lines);
    RustFile { path, imports, mods: inline_mods, doc_comment, exports, loc }
}

} // verus!

verus! {

/// Without block doc comments, the Rust reading of the module documentation is the Zig
/// one, from line `i` on, after the doc lines `doc` already taken.
proof fn lemma_rust_doc_as_zig(lines: Seq<Seq<char>>, i: int, block: Seq<char>, doc: Seq<Seq<char>>)
    requires
        0 <= i,
        forall|j: int| 0 <= j < lines.len() ==> !has_prefix(#[trigger] trim_start(lines[j]), block_doc_open()),
    ensures
        rust_doc_from(lines, i, false, block, doc) == doc + zig_doc_lines(lines, i, doc.len() > 0),
    decreases lines.len() - i,
{
    if i >= lines.len() {
        assert(doc + seq![] =~= doc);
    } else {
        let t = trim_start(lines[i]);
        assert(!has_prefix(t, block_doc_open()));
        if has_prefix(t, doc_marker()) {
            let x = doc_text(t);
            lemma_rust_doc_as_zig(lines, i + 1, block, doc.push(x));
            assert(doc.push(x) + zig_doc_lines(lines, i + 1, true) =~= doc + (seq![x] + zig_doc_lines(lines, i + 1, true)));
        } else if t.len() == 0 && doc.len() == 0 {
            lemma_rust_doc_as_zig(lines, i + 1, block, doc);
        } else {
            assert(doc + seq![] =~= doc);
        }
    }
}

/// On a source without `/*!` block doc comments, the Rust and Zig readers of module
/// documentation agree: leading blank lines are skipped, consecutive `//!` lines are
/// taken without the marker and one following space, and joined with newlines.
pub proof fn law_doc_readers_agree(src: Seq<char>)
    requires
        forall|j: int| 0 <= j < lines_of(src).len() ==> !has_prefix(#[trigger] trim_start(lines_of(src)[j]), block_doc_open()),
    ensures
        rust_doc_comment(src) == zig_doc_comment(src),
{
    lemma_rust_doc_as_zig(lines_of(src), 0, seq![], seq![]);
    assert(seq![] + zig_doc_lines(lines_of(src), 0, false) =~= zig_doc_lines(lines_of(src), 0, false));
}

} // verus!
