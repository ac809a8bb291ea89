//! Graph layout for text visualization.
//!
//! A simplified Sugiyama-style hierarchical layout:
//! - Nodes are arranged in columns by depth (distance from entry points)
//! - Nodes within a column are ordered by relative path
//! - Layout is left-to-right (depths are columns)

use vstd::prelude::*;
use crate::graph::{DepGraph, graph_nodes, graph_node, graph_node_count};
use crate::output::json::max_depth_upto;
use crate::text::{chars_of, chars_le, chars_le_vec};

verus! {

broadcast use vstd::string::group_string_axioms;

/// Width of a node box, in character cells.
pub const NODE_WIDTH: u16 = 24;
/// Height of a node box, in character cells.
pub const NODE_HEIGHT: u16 = 3;
/// Horizontal space between columns.
pub const HORIZONTAL_SPACING: u16 = 8;
/// Vertical space between rows.
pub const VERTICAL_SPACING: u16 = 2;

/// The relative path of node `i`.
pub open spec fn node_path(g: DepGraph, i: int) -> Seq<char> {
    graph_nodes(g)[i].relative_path@
}

/// `x` placed after every node of `sorted` whose path comes no later than its own.
pub open spec fn insert_by_node_path(g: DepGraph, sorted: Seq<usize>, x: usize) -> Seq<usize>
    decreases sorted.len(),
{
    if sorted.len() == 0 {
        seq![x]
    } else if chars_le(node_path(g, sorted.last() as int), node_path(g, x as int)) {
        sorted.push(x)
    } else {
        insert_by_node_path(g, sorted.drop_last(), x).push(sorted.last())
    }
}

/// The nodes among `0..upto` at depth `d`, stably sorted by relative path.
pub open spec fn group_upto(g: DepGraph, d: usize, upto: int) -> Seq<usize>
    decreases upto,
{
    if upto <= 0 {
        seq![]
    } else {
        let rest = group_upto(g, d, upto - 1);
        if graph_nodes(g)[upto - 1].depth == d {
            insert_by_node_path(g, rest, (upto - 1) as usize)
        } else {
            rest
        }
    }
}

/// The nodes at depth `d`, sorted by relative path (nodes with equal paths in node order).
pub open spec fn depth_group(g: DepGraph, d: usize) -> Seq<usize> {
    group_upto(g, d, graph_nodes(g).len() as int)
}

/// The greatest depth of a node, or 0.
pub open spec fn deepest(g: DepGraph) -> nat {
    max_depth_upto(graph_nodes(g), graph_nodes(g).len() as int)
}

/// No element occurs twice.
pub open spec fn no_dup(s: Seq<usize>) -> bool {
    forall|i: int, j: int| 0 <= i < j < s.len() ==> s[i] != s[j]
}

proof fn lemma_insert_is_insert(g: DepGraph, s: Seq<usize>, x: usize) -> (p: int)
    ensures
        0 <= p <= s.len(),
        insert_by_node_path(g, s, x) == s.insert(p, x),
    decreases s.len(),
{
    if s.len() == 0 {
        assert(s.insert(0, x) =~= seq![x]);
        0
    } else if chars_le(node_path(g, s.last() as int), node_path(g, x as int)) {
        assert(s.insert(s.len() as int, x) =~= s.push(x));
        s.len() as int
    } else {
        let p = lemma_insert_is_insert(g, s.drop_last(), x);
        assert(s.drop_last().insert(p, x).push(s.last()) =~= s.insert(p, x));
        p
    }
}

proof fn lemma_insert_at(g: DepGraph, sorted: Seq<usize>, x: usize, p: int)
    requires
        0 <= p <= sorted.len(),
        forall|j: int| p <= j < sorted.len() ==> !chars_le(node_path(g, #[trigger] sorted[j] as int), node_path(g, x as int)),
        p == 0 || chars_le(node_path(g, sorted[p - 1] as int), node_path(g, x as int)),
    ensures
        insert_by_node_path(g, sorted, x) == sorted.insert(p, x),
    decreases sorted.len(),
{
    if sorted.len() == 0 {
        assert(sorted.insert(p, x) =~= seq![x]);
    } else if chars_le(node_path(g, sorted.last() as int), node_path(g, x as int)) {
        assert(sorted.insert(p, x) =~= sorted.push(x));
    } else {
        lemma_insert_at(g, sorted.drop_last(), x, p);
        assert(sorted.drop_last().insert(p, x).push(sorted.last()) =~= sorted.insert(p, x));
    }
}

/// The group of depth `d` among `0..upto` holds each node below `upto` at depth `d`,
/// exactly once, and nothing else.
pub proof fn lemma_group(g: DepGraph, d: usize, upto: int)
    requires
        0 <= upto <= graph_nodes(g).len(),
        graph_nodes(g).len() <= usize::MAX,
    ensures
        no_dup(group_upto(g, d, upto)),
        forall|k: int| 0 <= k < group_upto(g, d, upto).len() ==> {
            let y = #[trigger] group_upto(g, d, upto)[k];
            y < upto && graph_nodes(g)[y as int].depth == d
        },
        forall|y: int| 0 <= y < upto && graph_nodes(g)[y].depth == d ==> #[trigger] group_upto(g, d, upto).contains(y as usize),
    decreases upto,
{
    if upto > 0 {
        lemma_group(g, d, upto - 1);
        let rest = group_upto(g, d, upto - 1);
        if graph_nodes(g)[upto - 1].depth == d {
            let x = (upto - 1) as usize;
            let p = lemma_insert_is_insert(g, rest, x);
            let r = rest.insert(p, x);
            assert forall|k: int| 0 <= k < r.len() implies {
                let y = #[trigger] r[k];
                y < upto && graph_nodes(g)[y as int].depth == d
            } by {
                if k < p {
                    assert(r[k] == rest[k]);
                    let y = rest[k];
                    assert(y < upto - 1);
                } else if k > p {
                    assert(r[k] == rest[k - 1]);
                    let y = rest[k - 1];
                    assert(y < upto - 1);
                } else {
                    assert(r[k] == x);
                }
            }
            assert forall|i: int, j: int| 0 <= i < j < r.len() implies r[i] != r[j] by {
                if i == p {
                    assert(r[i] == x);
                    assert(r[j] == rest[j - 1]);
                    let y = rest[j - 1];
                    assert(y < upto - 1);
                } else if j == p {
                    assert(r[j] == x);
                    assert(r[i] == rest[i]);
                    let y = rest[i];
                    assert(y < upto - 1);
                } else {
                    let a = if i < p { i } else { i - 1 };
                    let b = if j < p { j } else { j - 1 };
                    assert(r[i] == rest[a]);
                    assert(r[j] == rest[b]);
                    assert(a < b);
                }
            }
            assert forall|y: int| 0 <= y < upto && graph_nodes(g)[y].depth == d implies #[trigger] r.contains(y as usize) by {
                if y == upto - 1 {
                    assert(r[p] == x);
                } else {
                    assert(rest.contains(y as usize));
                    let k = choose|k: int| 0 <= k < rest.len() && rest[k] == y as usize;
                    if k < p {
                        assert(r[k] == rest[k]);
                    } else {
                        assert(r[k + 1] == rest[k]);
                    }
                }
            }
        } else {
            assert forall|y: int| 0 <= y < upto && graph_nodes(g)[y].depth == d implies #[trigger] rest.contains(y as usize) by {
                assert(y != upto - 1);
            }
        }
    }
}

proof fn lemma_depth_bound(nodes: Seq<crate::graph::FileNode>, upto: int)
    requires
        0 <= upto <= nodes.len(),
    ensures
        forall|j: int| 0 <= j < upto ==> #[trigger] nodes[j].depth <= max_depth_upto(nodes, upto),
    decreases upto,
{
    if upto > 0 {
        lemma_depth_bound(nodes, upto - 1);
    }
}

/// Layout information for rendering a graph as text.
#[derive(Debug)]
pub struct GraphLayout {
    /// Position of each node (x, y in character cells), by node index
    pub positions: Vec<Option<(u16, u16)>>,
    /// Width of each node box
    pub node_width: u16,
    /// Height of each node box
    pub node_height: u16,
    /// Total layout bounds (width, height)
    pub bounds: (u16, u16),
    /// Nodes organized by depth (column)
    pub layers: Vec<Vec<usize>>,
}

/// The graph is small enough for every coordinate to fit in a `u16`: at most 2048
/// columns and 13107 rows.
pub open spec fn fits_layout(g: DepGraph) -> bool {
    &&& deepest(g) <= 2047
    &&& forall|d: usize| #[trigger] depth_group(g, d).len() <= 13107
}

/// The height of the tallest of the first `upto` columns: 5 cells a row, the last row's
/// box 3 cells high.
pub open spec fn column_height_upto(g: DepGraph, upto: int) -> nat
    decreases upto,
{
    if upto <= 0 {
        0
    } else {
        let rest = column_height_upto(g, upto - 1);
        let len = depth_group(g, (upto - 1) as usize).len();
        let h: nat = if len > 0 {
            ((len - 1) * 5 + 3) as nat
        } else {
            0
        };
        if h > rest {
            h
        } else {
            rest
        }
    }
}

/// `l` is the layout of `g`.
pub open spec fn is_layout_of(l: GraphLayout, g: DepGraph) -> bool {
    let n = graph_nodes(g).len();
    let columns = deepest(g) + 1;
    &&& l.node_width == NODE_WIDTH
    &&& l.node_height == NODE_HEIGHT
    &&& l.layers@.len() == columns
    &&& forall|d: int| 0 <= d < columns ==> #[trigger] l.layers@[d]@ == depth_group(g, d as usize)
    &&& l.positions@.len() == n
    &&& forall|i: int| 0 <= i < n ==> (#[trigger] l.positions@[i]) is Some
    &&& forall|d: int, r: int| 0 <= d < columns && 0 <= r < depth_group(g, d as usize).len()
        ==> l.positions@[#[trigger] depth_group(g, d as usize)[r] as int] == Some(((d * 32) as u16, (r * 5) as u16))
    &&& l.bounds.0 == if n == 0 {
        0
    } else {
        (deepest(g) * 32 + 24) as u16
    }
    &&& l.bounds.1 == column_height_upto(g, columns as int)
}

/// The nodes at depth `d`, sorted by relative path; see `depth_group`.
pub fn nodes_at_depth(graph: &DepGraph, keys: &Vec<Vec<char>>, d: usize) -> (r: Vec<usize>)
    requires
        keys@.len() == graph_nodes(*graph).len(),
        forall|i: int| 0 <= i < keys@.len() ==> #[trigger] keys@[i]@ == node_path(*graph, i),
    ensures
        r@ == depth_group(*graph, d),
{
    let n = graph_node_count(graph);
    let mut r: Vec<usize> = Vec::new();
    let mut i: usize = 0;
    while i < n
        invariant
            n == graph_nodes(*graph).len(),
            keys@.len() == n,
            forall|i: int| 0 <= i < keys@.len() ==> #[trigger] keys@[i]@ == node_path(*graph, i),
            i <= n,
            r@ == group_upto(*graph, d, i as int),
        decreases n - i,
    {
        if graph_node(graph, i).depth == d {
            proof {
                lemma_group(*graph, d, i as int);
            }
            let mut p: usize = r.len();
            while p > 0 && !chars_le_vec(&keys[r[p - 1]], &keys[i])
                invariant
                    p <= r@.len(),
                    i < n,
                    keys@.len() == n,
                    forall|k: int| 0 <= k < r@.len() ==> #[trigger] r@[k] < i,
                    forall|i: int| 0 <= i < keys@.len() ==> #[trigger] keys@[i]@ == node_path(*graph, i),
                    forall|j: int| p <= j < r@.len() ==> !chars_le(node_path(*graph, #[trigger] r@[j] as int), node_path(*graph, i as int)),
                decreases p,
            {
                p -= 1;
            }
            proof {
                lemma_insert_at(*graph, r@, i, p as int);
            }
            r.insert(p, i);
        }
        i += 1;
    }
    r
}

impl GraphLayout {
    /// Compute the layout of a graph: each depth is a column, 32 cells apart; within a
    /// column the nodes, sorted by relative path, are stacked 5 cells apart. Every node is
    /// placed. The bounds are the right edge of the last column (0 for an empty graph) and
    /// the bottom of the tallest column.
    pub fn compute(graph: &DepGraph) -> (l: Self)
        requires
            fits_layout(*graph),
        ensures
            is_layout_of(l, *graph),
    {
        let ghost g = *graph;
        let n = graph_node_count(graph);
        let mut keys: Vec<Vec<char>> = Vec::new();
        let mut max_depth: usize = 0;
        let mut positions: Vec<Option<(u16, u16)>> = Vec::new();
        let mut i: usize = 0;
        while i < n
            invariant
                n == graph_nodes(g).len(),
                g == *graph,
                i <= n,
                keys@.len() == i,
                forall|j: int| 0 <= j < i ==> #[trigger] keys@[j]@ == node_path(g, j),
                max_depth == max_depth_upto(graph_nodes(g), i as int),
                positions@.len() == i,
                forall|j: int| 0 <= j < i ==> #[trigger] positions@[j] is None,
            decreases n - i,
        {
            let node = graph_node(graph, i);
            keys.push(chars_of(node.relative_path.as_str()));
            if node.depth > max_depth {
                max_depth = node.depth;
            }
            positions.push(None);
            i += 1;
        }
        let mut layers: Vec<Vec<usize>> = Vec::new();
        let mut max_y: u16 = 0;
        let mut d: usize = 0;
        while d <= max_depth
            invariant
                n == graph_nodes(g).len(),
                g == *graph,
                fits_layout(g),
                max_depth == deepest(g),
                max_depth <= 2047,
                d <= max_depth + 1,
                keys@.len() == n,
                forall|j: int| 0 <= j < n ==> #[trigger] keys@[j]@ == node_path(g, j),
                layers@.len() == d,
                forall|e: int| 0 <= e < d ==> #[trigger] layers@[e]@ == depth_group(g, e as usize),
                positions@.len() == n,
                forall|j: int| 0 <= j < n ==> ((#[trigger] positions@[j]) is Some <==> graph_nodes(g)[j].depth < d),
                forall|e: int, r: int| 0 <= e < d && 0 <= r < depth_group(g, e as usize).len()
                    ==> positions@[#[trigger] depth_group(g, e as usize)[r] as int] == Some(((e * 32) as u16, (r * 5) as u16)),
                max_y == column_height_upto(g, d as int),
            decreases max_depth + 1 - d,
        {
            let group = nodes_at_depth(graph, &keys, d);
            proof {
                lemma_group(g, d, n as int);
                assert(depth_group(g, d).len() <= 13107);
            }
            let x: u16 = (d as u16) * 32;
            assert(x == (d * 32) as u16);
            let ghost before = positions@;
            let mut r: usize = 0;
            while r < group.len()
                invariant
                    n == graph_nodes(g).len(),
                    group@ == depth_group(g, d),
                    no_dup(group@),
                    forall|k: int| 0 <= k < group@.len() ==> {
                        let y = #[trigger] group@[k];
                        y < n && graph_nodes(g)[y as int].depth == d
                    },
                    group@.len() <= 13107,
                    d <= 2047,
                    x == (d * 32) as u16,
                    r <= group@.len(),
                    positions@.len() == n,
                    forall|j: int| 0 <= j < n && !group@.subrange(0, r as int).contains(j as usize) ==> #[trigger] positions@[j] == before[j],
                    forall|k: int| 0 <= k < r ==> positions@[#[trigger] group@[k] as int] == Some((x, (k * 5) as u16)),
                decreases group.len() - r,
            {
                let y: u16 = (r as u16) * 5;
                let ghost prev = positions@;
                positions.set(group[r], Some((x, y)));
                proof {
                    assert forall|j: int| 0 <= j < n && !group@.subrange(0, r + 1).contains(j as usize) implies #[trigger] positions@[j] == before[j] by {
                        assert(group@.subrange(0, r + 1)[r as int] == group@[r as int]);
                        if group@.subrange(0, r as int).contains(j as usize) {
                            let k = choose|k: int| 0 <= k < r && group@.subrange(0, r as int)[k] == j as usize;
                            assert(group@.subrange(0, r + 1)[k] == j as usize);
                        }
                    }
                    assert forall|k: int| 0 <= k < r + 1 implies positions@[#[trigger] group@[k] as int] == Some((x, (k * 5) as u16)) by {
                        if k < r {
                            assert(group@[k] != group@[r as int]);
                        }
                    }
                }
                r += 1;
            }
            proof {
                assert(group@.subrange(0, group@.len() as int) =~= group@);
                // nodes of other depths keep their state; nodes of this depth are now placed
                assert forall|j: int| 0 <= j < n implies ((#[trigger] positions@[j]) is Some <==> graph_nodes(g)[j].depth < d + 1) by {
                    if graph_nodes(g)[j].depth == d {
                        assert(group@.contains(j as usize));
                        let k = choose|k: int| 0 <= k < group@.len() && group@[k] == j as usize;
                        assert(positions@[group@[k] as int] == Some((x, (k * 5) as u16)));
                    } else {
                        if group@.contains(j as usize) {
                            let k = choose|k: int| 0 <= k < group@.len() && group@[k] == j as usize;
                            assert(graph_nodes(g)[group@[k] as int].depth == d);
                        }
                    }
                }
                assert forall|e: int, r: int| 0 <= e < d + 1 && 0 <= r < depth_group(g, e as usize).len()
                    implies positions@[#[trigger] depth_group(g, e as usize)[r] as int] == Some(((e * 32) as u16, (r * 5) as u16)) by {
                    if e < d {
                        lemma_group(g, e as usize, n as int);
                        let j = depth_group(g, e as usize)[r] as int;
                        assert(graph_nodes(g)[j].depth == e);
                        if group@.contains(j as usize) {
                            let k = choose|k: int| 0 <= k < group@.len() && group@[k] == j as usize;
                            assert(graph_nodes(g)[group@[k] as int].depth == d);
                        }
                        assert(!group@.contains(j as usize));
                    }
                }
            }
            if group.len() > 0 {
                let h: u16 = ((group.len() - 1) as u16) * 5 + 3;
                if h > max_y {
                    max_y = h;
                }
            }
            layers.push(group);
            d += 1;
        }
        proof {
            lemma_depth_bound(graph_nodes(g), n as int);
        }
        let max_x: u16 = if n == 0 {
            0
        } else {
            (max_depth as u16) * 32 + 24
        };
        GraphLayout {
            positions,
            node_width: NODE_WIDTH,
            node_height: NODE_HEIGHT,
            bounds: (max_x, max_y),
            layers,
        }
    }

    /// The position of a node, if it has been laid out.
    pub open spec fn position_of(&self, node: usize) -> Option<(u16, u16)> {
        if node < self.positions@.len() {
            self.positions@[node as int]
        } else {
            None
        }
    }

    /// The point at offset (`dx`, `dy`) from the corner of a laid-out node fits in a `u16`.
    pub open spec fn offset_fits(&self, node: usize, dx: u16, dy: u16) -> bool {
        self.position_of(node) matches Some(p) ==> p.0 + dx <= u16::MAX && p.1 + dy <= u16::MAX
    }

    /// The point at offset (`dx`, `dy`) from the corner of a laid-out node.
    pub open spec fn offset_point(&self, node: usize, dx: u16, dy: u16) -> Option<(u16, u16)> {
        match self.position_of(node) {
            Some(p) => Some(((p.0 + dx) as u16, (p.1 + dy) as u16)),
            None => None,
        }
    }

    fn offset(&self, node: usize, dx: u16, dy: u16) -> (r: Option<(u16, u16)>)
        requires
            self.offset_fits(node, dx, dy),
        ensures
            r == self.offset_point(node, dx, dy),
    {
        match self.get_position(node) {
            Some((x, y)) => Some((x + dx, y + dy)),
            None => None,
        }
    }

    /// Get the center point of a node box.
    pub fn get_node_center(&self, node: usize) -> (r: Option<(u16, u16)>)
        requires
            self.offset_fits(node, (self.node_width / 2) as u16, (self.node_height / 2) as u16),
        ensures
            r == self.offset_point(node, (self.node_width / 2) as u16, (self.node_height / 2) as u16),
    {
        self.offset(node, self.node_width / 2, self.node_height / 2)
    }

    /// Get the middle of the right edge of a node box (for edge drawing).
    pub fn get_node_right(&self, node: usize) -> (r: Option<(u16, u16)>)
        requires
            self.offset_fits(node, self.node_width, (self.node_height / 2) as u16),
        ensures
            r == self.offset_point(node, self.node_width, (self.node_height / 2) as u16),
    {
        self.offset(node, self.node_width, self.node_height / 2)
    }

    /// Get the middle of the left edge of a node box (for edge drawing).
    pub fn get_node_left(&self, node: usize) -> (r: Option<(u16, u16)>)
        requires
            self.offset_fits(node, 0, (self.node_height / 2) as u16),
        ensures
            r == self.offset_point(node, 0, (self.node_height / 2) as u16),
    {
        self.offset(node, 0, self.node_height / 2)
    }

    /// Get the position of a node, if it has been laid out.
    pub fn get_position(&self, node: usize) -> (r: Option<(u16, u16)>)
        ensures
            r == self.position_of(node),
    {
        if node < self.positions.len() {
            self.positions[node]
        } else {
            None
        }
    }
}

/// In a layout, a node's column is given by its depth: a deeper node stands to the right
/// of a shallower one, and nodes of equal depth share a column.
pub proof fn law_columns_follow_depth(l: GraphLayout, g: DepGraph, i: int, j: int)
    requires
        is_layout_of(l, g),
        fits_layout(g),
        graph_nodes(g).len() <= usize::MAX,
        0 <= i < graph_nodes(g).len(),
        0 <= j < graph_nodes(g).len(),
    ensures
        l.positions@[i] matches Some(p) && l.positions@[j] matches Some(q) && (
            (graph_nodes(g)[i].depth < graph_nodes(g)[j].depth ==> p.0 < q.0)
            && (graph_nodes(g)[i].depth == graph_nodes(g)[j].depth ==> p.0 == q.0)),
{
    let n = graph_nodes(g).len() as int;
    let di = graph_nodes(g)[i].depth;
    let dj = graph_nodes(g)[j].depth;
    lemma_group(g, di, n);
    lemma_group(g, dj, n);
    lemma_depth_bound(graph_nodes(g), n);
    assert(depth_group(g, di).contains(i as usize));
    assert(depth_group(g, dj).contains(j as usize));
    let ri = choose|r: int| 0 <= r < depth_group(g, di).len() && depth_group(g, di)[r] == i as usize;
    let rj = choose|r: int| 0 <= r < depth_group(g, dj).len() && depth_group(g, dj)[r] == j as usize;
    let ci = di as int;
    let cj = dj as int;
    assert(ci as usize == di && cj as usize == dj);
    assert(l.positions@[depth_group(g, ci as usize)[ri] as int] == Some(((ci * 32) as u16, (ri * 5) as u16)));
    assert(l.positions@[depth_group(g, cj as usize)[rj] as int] == Some(((cj * 32) as u16, (rj * 5) as u16)));
    assert(di <= 2047 && dj <= 2047);
}

} // verus!
