//! Language-specific parsers for extracting imports and exports.

pub mod zig;
pub mod rust;

use vstd::prelude::*;
use crate::text::{has_prefix, sub_vec};

verus! {

/// Result of parsing a source file.
#[derive(Debug, Clone)]
pub struct ParseResult {
    pub imports: Vec<String>,
    pub exports: Vec<String>,
    pub doc_comment: Option<String>,
    pub loc: usize,
}

/// The marker of a module doc line.
pub open spec fn doc_marker() -> Seq<char> {
    "//!"@
}

/// The text of a doc line that starts with the marker: what follows the marker, without
/// one leading space.
pub open spec fn doc_text(t: Seq<char>) -> Seq<char> {
    let content = t.skip(doc_marker().len() as int);
    if content.len() > 0 && content[0] == ' ' {
        content.skip(1)
    } else {
        content
    }
}

/// The text of a doc line that starts with the marker.
pub fn doc_text_vec(t: &Vec<char>, marker: &Vec<char>) -> (r: Vec<char>)
    requires
        marker@ == doc_marker(),
        has_prefix(t@, doc_marker()),
    ensures
        r@ == doc_text(t@),
{
    let content = sub_vec(t, marker.len(), t.len());
    assert(content@ =~= t@.skip(doc_marker().len() as int));
    if content.len() > 0 && content[0] == ' ' {
        let r = sub_vec(&content, 1, content.len());
        assert(r@ =~= content@.skip(1));
        r
    } else {
        content
    }
}

} // verus!
