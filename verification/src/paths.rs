//! File paths as text: components, file names and extensions.

use vstd::prelude::*;
use crate::text::{sub_vec};

verus! {

/// A path separator: `/`, or `\` as on Windows.
pub open spec fn is_sep(c: char) -> bool {
    c == '/' || c == '\\'
}

/// The index just after the last separator before `i` in `p`, or 0.
pub open spec fn segment_start(p: Seq<char>, i: int) -> int
    decreases i,
{
    if i <= 0 {
        0
    } else if is_sep(p[i - 1]) {
        i
    } else {
        segment_start(p, i - 1)
    }
}

/// The last component of `p` that is neither empty nor `.`, if any: trailing separators and
/// `.` components are passed over.
pub open spec fn last_segment(p: Seq<char>) -> Option<Seq<char>>
    decreases p.len(),
{
    if p.len() == 0 {
        None
    } else if is_sep(p.last()) {
        last_segment(p.drop_last())
    } else {
        let start = segment_start(p, p.len() as int);
        if 0 <= start < p.len() {
            let seg = p.subrange(start, p.len() as int);
            if seg == seq!['.'] {
                last_segment(p.subrange(0, start))
            } else {
                Some(seg)
            }
        } else {
            None
        }
    }
}

/// The file name of a path (as `Path::file_name`, with `\` also a separator): its last
/// component, unless that is `..` or there is none.
pub open spec fn file_name_of(p: Seq<char>) -> Option<Seq<char>> {
    match last_segment(p) {
        Some(s) => if s == seq!['.', '.'] {
            None
        } else {
            Some(s)
        },
        None => None,
    }
}

pub fn is_separator(c: char) -> (b: bool)
    ensures
        b == is_sep(c),
{
    c == '/' || c == '\\'
}

proof fn lemma_segment_start(p: Seq<char>, i: int, k: int)
    requires
        0 <= k <= i <= p.len(),
        forall|j: int| k <= j < i ==> !is_sep(#[trigger] p[j]),
        k == 0 || is_sep(p[k - 1]),
    ensures
        segment_start(p, i) == k,
    decreases i - k,
{
    if i > k {
        lemma_segment_start(p, i - 1, k);
    }
}

proof fn lemma_segment_start_take(p: Seq<char>, i: int, e: int)
    requires
        0 <= i <= e <= p.len(),
    ensures
        segment_start(p.take(e), i) == segment_start(p, i),
    decreases i,
{
    if i > 0 {
        lemma_segment_start_take(p, i - 1, e);
    }
}

/// The file name of the path `p`; see `file_name_of`.
pub fn file_name_chars(p: &Vec<char>) -> (r: Option<Vec<char>>)
    ensures
        r matches Some(v) ==> file_name_of(p@) == Some(v@),
        r is None ==> file_name_of(p@) is None,
{
    let mut end: usize = p.len();
    assert(p@.take(end as int) =~= p@);
    loop
        invariant
            end <= p@.len(),
            last_segment(p@.take(end as int)) == last_segment(p@),
        decreases end,
    {
        let ghost end0 = end;
        while end > 0 && is_separator(p[end - 1])
            invariant
                end <= end0 <= p@.len(),
                last_segment(p@.take(end as int)) == last_segment(p@),
            decreases end,
        {
            assert(p@.take(end as int).drop_last() =~= p@.take(end - 1));
            end -= 1;
        }
        if end == 0 {
            return None;
        }
        let mut start: usize = end;
        while start > 0 && !is_separator(p[start - 1])
            invariant
                start <= end <= p@.len(),
                end > 0,
                !is_sep(p@[end - 1]),
                forall|j: int| start <= j < end ==> !is_sep(#[trigger] p@[j]),
            decreases start,
        {
            start -= 1;
        }
        let ghost q = p@.take(end as int);
        proof {
            assert forall|j: int| start <= j < end implies !is_sep(#[trigger] q[j]) by {
                assert(q[j] == p@[j]);
            }
            if start > 0 {
                assert(q[start - 1] == p@[start - 1]);
            }
            lemma_segment_start(q, end as int, start as int);
            assert(q.last() == p@[end - 1]);
        }
        let seg = sub_vec(p, start, end);
        assert(seg@ =~= q.subrange(start as int, q.len() as int));
        if seg.len() == 1 && seg[0] == '.' {
            assert(seg@ =~= seq!['.']);
            assert(q.subrange(0, start as int) =~= p@.take(start as int));
            end = start;
        } else {
            assert(seg@ != seq!['.']);
            if seg.len() == 2 && seg[0] == '.' && seg[1] == '.' {
                assert(seg@ =~= seq!['.', '.']);
                return None;
            } else {
                assert(seg@ != seq!['.', '.']);
                return Some(seg);
            }
        }
    }
}

} // verus!
