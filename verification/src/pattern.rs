//! Regular-expression matching over bytes, and reading matched text back.

use vstd::prelude::*;
use crate::text::{string_from_utf8, sub_vec};

verus! {

/// The capture spans that the `regex` crate reports when `pattern` is matched against
/// `haystack` (`regex::bytes::Regex::captures_iter`): one entry per successive
/// non-overlapping match, holding for each group its byte range, if the group took part.
/// An invalid pattern gives no matches.
pub uninterp spec fn regex_spans(pattern: Seq<char>, haystack: Seq<u8>) -> Seq<Seq<Option<(usize, usize)>>>;

/// Every span lies within a haystack of `len` bytes, start before end.
pub open spec fn spans_within(spans: Seq<Seq<Option<(usize, usize)>>>, len: nat) -> bool {
    forall|m: int, g: int|
        0 <= m < spans.len() && 0 <= g < spans[m].len() ==> (#[trigger] spans[m][g] matches Some(sp) ==> sp.0 <= sp.1 <= len)
}

/// The capture groups of every match of `pattern` in `haystack`, as byte ranges
/// (`regex::bytes::Regex::new` and `captures_iter`). The regex documentation guarantees
/// `start <= end` and that `haystack[start..end]` is the matched text.
#[verifier::external_body]
pub fn regex_captures(pattern: &str, haystack: &[u8]) -> (r: Vec<Vec<Option<(usize, usize)>>>)
    ensures
        r.deep_view() == regex_spans(pattern@, haystack@),
        spans_within(r.deep_view(), haystack@.len()),
{
    match regex::bytes::Regex::new(pattern) {
        Ok(re) => re.captures_iter(haystack).map(|c| c.iter().map(|m| m.map(|m| (m.start(), m.end()))).collect()).collect(),
        Err(_) => Vec::new(),
    }
}

/// The span of group `g` of match `m`, when the group took part and lies within `len`.
pub open spec fn group_span(spans: Seq<Seq<Option<(usize, usize)>>>, m: int, g: int, len: nat) -> Option<(usize, usize)> {
    if 0 <= g < spans[m].len() {
        match spans[m][g] {
            Some(sp) => if sp.0 <= sp.1 <= len {
                Some(sp)
            } else {
                None
            },
            None => None,
        }
    } else {
        None
    }
}

/// The span of group `g` of match `m`, when the group took part and lies within `len`.
pub fn get_group(spans: &Vec<Vec<Option<(usize, usize)>>>, m: usize, g: usize, len: usize) -> (r: Option<(usize, usize)>)
    requires
        m < spans@.len(),
    ensures
        r == group_span(spans.deep_view(), m as int, g as int, len as nat),
{
    let ghost sv = spans.deep_view();
    assert(sv[m as int] == spans@[m as int].deep_view());
    if g < spans[m].len() {
        assert(sv[m as int][g as int] == spans@[m as int]@[g as int]);
        match spans[m][g] {
            Some(sp) => if sp.0 <= sp.1 && sp.1 <= len {
                Some(sp)
            } else {
                None
            },
            None => None,
        }
    } else {
        None
    }
}

/// The text of bytes `a..b` of `bytes`, when they are valid UTF-8.
pub open spec fn text_of(bytes: Seq<u8>, a: int, b: int) -> Option<Seq<char>> {
    let sub = bytes.subrange(a, b);
    if vstd::utf8::valid_utf8(sub) {
        Some(vstd::utf8::decode_utf8(sub))
    } else {
        None
    }
}

/// The text of bytes `a..b` of `bytes`, when they are valid UTF-8.
pub fn text_at(bytes: &[u8], a: usize, b: usize) -> (r: Option<String>)
    requires
        a <= b <= bytes@.len(),
    ensures
        r matches Some(s) ==> text_of(bytes@, a as int, b as int) == Some(s@),
        r is None ==> text_of(bytes@, a as int, b as int) is None,
{
    string_from_utf8(sub_vec(bytes, a, b))
}

/// The number of newline bytes in `bytes[0..pos]`.
pub open spec fn newlines_before(bytes: Seq<u8>, pos: int) -> nat
    decreases pos,
{
    if pos <= 0 {
        0
    } else {
        newlines_before(bytes, pos - 1) + if bytes[pos - 1] == 10u8 {
            1nat
        } else {
            0nat
        }
    }
}

/// The 1-based line on which byte `pos` lies.
pub open spec fn line_at(bytes: Seq<u8>, pos: int) -> nat {
    newlines_before(bytes, pos) + 1
}

/// The 1-based line on which byte `pos` lies.
pub fn line_number(bytes: &[u8], pos: usize) -> (r: usize)
    requires
        pos < bytes@.len(),
    ensures
        r == line_at(bytes@, pos as int),
{
    let len = bytes.len();
    let mut count: usize = 0;
    let mut i: usize = 0;
    while i < pos
        invariant
            i <= pos < bytes@.len(),
            len == bytes@.len(),
            count == newlines_before(bytes@, i as int),
            count <= i,
        decreases pos - i,
    {
        if bytes[i] == 10u8 {
            count += 1;
        }
        i += 1;
    }
    count + 1
}

/// The texts of group `g` of every match, in order: matches whose group did not take
/// part, lies outside the haystack, or is not valid UTF-8 are left out.
pub open spec fn group_texts_upto(hay: Seq<u8>, spans: Seq<Seq<Option<(usize, usize)>>>, g: int, upto: int) -> Seq<Seq<char>>
    decreases upto,
{
    if upto <= 0 {
        seq![]
    } else {
        let rest = group_texts_upto(hay, spans, g, upto - 1);
        match group_span(spans, upto - 1, g, hay.len()) {
            Some(sp) => match text_of(hay, sp.0 as int, sp.1 as int) {
                Some(t) => rest.push(t),
                None => rest,
            },
            None => rest,
        }
    }
}

/// The texts of group `g` of every match.
pub open spec fn group_texts(hay: Seq<u8>, spans: Seq<Seq<Option<(usize, usize)>>>, g: int) -> Seq<Seq<char>> {
    group_texts_upto(hay, spans, g, spans.len() as int)
}

/// The texts of group `g` of every match of a capture list over `hay`.
pub fn texts_of_group(hay: &[u8], spans: &Vec<Vec<Option<(usize, usize)>>>, g: usize) -> (r: Vec<String>)
    ensures
        r@.map_values(|s: String| s@) == group_texts(hay@, spans.deep_view(), g as int),
{
    let mut r: Vec<String> = Vec::new();
    let mut m: usize = 0;
    while m < spans.len()
        invariant
            m <= spans@.len(),
            spans.deep_view().len() == spans@.len(),
            r@.map_values(|s: String| s@) == group_texts_upto(hay@, spans.deep_view(), g as int, m as int),
        decreases spans.len() - m,
    {
        let ghost before = r@.map_values(|s: String| s@);
        match get_group(spans, m, g, hay.len()) {
            Some(sp) => {
                match text_at(hay, sp.0, sp.1) {
                    Some(t) => {
                        r.push(t);
                        assert(r@.map_values(|s: String| s@) =~= before.push(t@));
                    },
                    None => {},
                }
            },
            None => {},
        }
        m += 1;
    }
    r
}

} // verus!
