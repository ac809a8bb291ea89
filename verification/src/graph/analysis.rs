//! Graph analysis: cycles, depths, fan-in/fan-out and layer violations.

use vstd::prelude::*;
use crate::graph::{
    DepGraph, FileNode, Import, Layer, layer_name, graph_nodes, graph_edges, incident,
    in_degree, out_degree, edges_within, graph_node_count, graph_node, graph_edges_directed,
    graph_raw_edges, graph_sccs, mutually_reachable, kosaraju_components, edge_pairs,
    is_scc_partition, in_some_comp,
};
use crate::text::{concat_strs, str_to_string, usize_to_string, decimal, chars_of, chars_eq};

verus! {

broadcast use vstd::string::group_string_axioms;

// ---------------------------------------------------------------------------
// Result types
// ---------------------------------------------------------------------------

/// A cycle in the dependency graph.
#[derive(Debug, Clone, PartialEq, Eq)]
pub struct Cycle {
    /// File paths in the cycle (in order of dependency)
    pub nodes: Vec<String>,
    /// Edges forming the cycle: (from_path, to_path, line_number)
    pub edges: Vec<(String, String, usize)>,
}

/// An edge that participates in a cycle.
#[derive(Debug, Clone, PartialEq, Eq)]
pub struct CycleEdge {
    /// Source file path
    pub from: String,
    /// Target file path
    pub to: String,
    /// Line number where the import occurs
    pub line: usize,
}

/// A layer rule violation: a file in one layer imports a file from a layer it should not
/// depend on (e.g., a driver importing from the app layer).
#[derive(Debug, Clone, PartialEq, Eq)]
pub struct LayerViolation {
    /// File that contains the violating import
    pub file: String,
    /// File being imported
    pub imports: String,
    /// Layer of the importing file
    pub from_layer: Layer,
    /// Layer of the imported file
    pub to_layer: Layer,
    /// Line number where the import occurs
    pub line: usize,
    /// Human-readable explanation of why this is a violation
    pub reason: String,
}

/// The text of a violation: importing file, imported file, layers, line and reason.
pub struct ViolationView {
    pub file: Seq<char>,
    pub imports: Seq<char>,
    pub from_layer: Layer,
    pub to_layer: Layer,
    pub line: usize,
    pub reason: Seq<char>,
}

impl View for LayerViolation {
    type V = ViolationView;

    open spec fn view(&self) -> ViolationView {
        ViolationView {
            file: self.file@,
            imports: self.imports@,
            from_layer: self.from_layer,
            to_layer: self.to_layer,
            line: self.line,
            reason: self.reason@,
        }
    }
}

/// The views of a list of violations.
pub open spec fn violation_views(v: Seq<LayerViolation>) -> Seq<ViolationView> {
    v.map_values(|x: LayerViolation| x@)
}

/// The reason given for a violation.
pub open spec fn reason_text(from_layer: Layer, to_layer: Layer) -> Seq<char> {
    layer_name(from_layer) + " layer cannot import from "@ + layer_name(to_layer) + " layer"@
}

/// The fix suggested for a violation.
pub open spec fn violation_fix_text(file: Seq<char>, to_layer: Layer, imports: Seq<char>) -> Seq<char> {
    "Move "@ + file + " to the "@ + layer_name(to_layer) + " layer, or remove the import of "@
        + imports
}

/// The fix suggested for a cycle whose first edge is `(from, to, line)`.
pub open spec fn cycle_fix_text(from: Seq<char>, to: Seq<char>, line: usize) -> Seq<char> {
    "Break cycle by removing import at "@ + from + ":"@ + decimal(line as nat) + " (imports "@
        + to + ")"@
}

// ---------------------------------------------------------------------------
// Layer rules
// ---------------------------------------------------------------------------

/// The position of a layer in the hierarchy, Entry (0) -> App -> Core -> Platform ->
/// Driver -> Arch (5); Unknown is 6.
pub open spec fn precedence(layer: Layer) -> u8 {
    match layer {
        Layer::Entry => 0,
        Layer::App => 1,
        Layer::Core => 2,
        Layer::Platform => 3,
        Layer::Driver => 4,
        Layer::Arch => 5,
        Layer::Unknown => 6,
    }
}

/// Get the precedence of a layer in the architecture hierarchy: a layer may import from
/// layers at the same level or lower in the stack (higher precedence number).
pub fn layer_precedence(layer: Layer) -> (p: u8)
    ensures
        p == precedence(layer),
{
    match layer {
        Layer::Entry => 0,
        Layer::App => 1,
        Layer::Core => 2,
        Layer::Platform => 3,
        Layer::Driver => 4,
        Layer::Arch => 5,
        Layer::Unknown => 6,
    }
}

/// An import from `from_layer` to `to_layer` breaks the layer rules: neither layer is
/// Unknown and the imported layer is above the importing one.
pub open spec fn violates(from_layer: Layer, to_layer: Layer) -> bool {
    from_layer != Layer::Unknown && to_layer != Layer::Unknown && precedence(from_layer)
        > precedence(to_layer)
}

/// A file may import from its own layer and from any layer below it, and imports that
/// involve an unclassified file are never violations.
pub proof fn law_downward_imports_allowed(from_layer: Layer, to_layer: Layer)
    requires
        precedence(from_layer) <= precedence(to_layer) || from_layer == Layer::Unknown || to_layer == Layer::Unknown,
    ensures
        !violates(from_layer, to_layer),
{
}

/// An import that reaches up the stack is a violation: when both files are classified
/// and the importing file's layer stands lower (greater precedence) than the imported
/// file's, as when a Core file imports an App file.
pub proof fn law_upward_imports_are_violations(from_layer: Layer, to_layer: Layer)
    requires
        from_layer != Layer::Unknown,
        to_layer != Layer::Unknown,
        precedence(from_layer) > precedence(to_layer),
    ensures
        violates(from_layer, to_layer),
{
}

/// Between two different classified layers, exactly one direction of import breaks the
/// rules: every pair of distinct layers is ordered, one above the other.
pub proof fn law_one_direction_violates(a: Layer, b: Layer)
    requires
        a != Layer::Unknown,
        b != Layer::Unknown,
        a != b,
    ensures
        violates(a, b) != violates(b, a),
{
}

/// Check if an import from one layer to another violates layer rules.
pub fn is_layer_violation(from_layer: Layer, to_layer: Layer) -> (b: bool)
    ensures
        b == violates(from_layer, to_layer),
{
    if from_layer == Layer::Unknown || to_layer == Layer::Unknown {
        return false;
    }
    layer_precedence(from_layer) > layer_precedence(to_layer)
}

impl LayerViolation {
    /// Create a new layer violation with an auto-generated reason.
    pub fn new(file: String, imports: String, from_layer: Layer, to_layer: Layer, line: usize) -> (v: Self)
        ensures
            v.file == file,
            v.imports == imports,
            v.from_layer == from_layer,
            v.to_layer == to_layer,
            v.line == line,
            v.reason@ == reason_text(from_layer, to_layer),
    {
        let mut reason = str_to_string(from_layer.name());
        reason.append(" layer cannot import from ");
        reason.append(to_layer.name());
        reason.append(" layer");
        LayerViolation { file, imports, from_layer, to_layer, line, reason }
    }

    /// Create a fix suggestion for this violation.
    pub fn fix_suggestion(&self) -> (s: String)
        ensures
            s@ == violation_fix_text(self.file@, self.to_layer, self.imports@),
    {
        let mut s = str_to_string("Move ");
        s.append(self.file.as_str());
        s.append(" to the ");
        s.append(self.to_layer.name());
        s.append(" layer, or remove the import of ");
        s.append(self.imports.as_str());
        s
    }
}

// ---------------------------------------------------------------------------
// Analysis result
// ---------------------------------------------------------------------------

/// Complete analysis result for a dependency graph.
#[derive(Debug, Clone)]
pub struct AnalysisResult {
    /// Cycle detection results
    pub cycles: Vec<Cycle>,
    /// All edges participating in cycles
    pub cycle_edges: Vec<CycleEdge>,
    /// Layer rule violations
    pub violations: Vec<LayerViolation>,
    /// Maximum depth from entry points
    pub max_depth: usize,
    /// Path from entry to deepest node
    pub deepest_path: Vec<String>,
    /// Files with high fan-out (many imports): (path, count)
    pub high_fan_out: Vec<(String, usize)>,
    /// Files with high fan-in (imported by many): (path, count)
    pub high_fan_in: Vec<(String, usize)>,
    /// Orphan files (zero fan-in AND zero fan-out)
    pub orphans: Vec<String>,
    /// Entry points (files with zero in-degree)
    pub entry_points: Vec<String>,
}

/// The fix suggestions for a list of cycles: one per cycle that has an edge, naming its
/// first edge.
pub open spec fn cycle_fixes(cycles: Seq<Cycle>) -> Seq<Seq<char>>
    decreases cycles.len(),
{
    if cycles.len() == 0 {
        seq![]
    } else {
        let rest = cycle_fixes(cycles.drop_last());
        let c = cycles.last();
        if c.edges@.len() > 0 {
            rest.push(cycle_fix_text(c.edges@[0].0@, c.edges@[0].1@, c.edges@[0].2))
        } else {
            rest
        }
    }
}

/// The fix suggestions for a list of violations.
pub open spec fn violation_fixes(vs: Seq<LayerViolation>) -> Seq<Seq<char>> {
    vs.map_values(|v: LayerViolation| violation_fix_text(v.file@, v.to_layer, v.imports@))
}

/// The fix suggestion for a cycle: remove its first import.
pub fn cycle_fix(from: &String, to: &String, line: usize) -> (s: String)
    ensures
        s@ == cycle_fix_text(from@, to@, line),
{
    let mut s = str_to_string("Break cycle by removing import at ");
    s.append(from.as_str());
    s.append(":");
    s.append(usize_to_string(line).as_str());
    s.append(" (imports ");
    s.append(to.as_str());
    s.append(")");
    s
}

/// The issue count is zero exactly when there are neither errors (cycles) nor warnings
/// (layer violations): `issue_count() == 0` iff `!has_errors() && !has_warnings()`.
pub proof fn law_no_issues_iff_clean(r: AnalysisResult)
    ensures
        (r.cycles@.len() + r.violations@.len() == 0) <==> (!(r.cycles@.len() > 0) && !(r.violations@.len() > 0)),
{
}

impl AnalysisResult {
    /// Check if there are any critical errors (cycles).
    pub fn has_errors(&self) -> (b: bool)
        ensures
            b == (self.cycles@.len() > 0),
    {
        !self.cycles.is_empty()
    }

    /// Check if there are any warnings (layer violations).
    pub fn has_warnings(&self) -> (b: bool)
        ensures
            b == (self.violations@.len() > 0),
    {
        !self.violations.is_empty()
    }

    /// Get the total number of issues found (cycles + violations).
    pub fn issue_count(&self) -> (n: usize)
        requires
            self.cycles@.len() + self.violations@.len() <= usize::MAX,
        ensures
            n == self.cycles@.len() + self.violations@.len(),
    {
        self.cycles.len() + self.violations.len()
    }

    /// Get fix suggestions for all issues: first the cycles', then the violations'.
    pub fn fix_suggestions(&self) -> (r: Vec<String>)
        ensures
            r@.map_values(|s: String| s@) == cycle_fixes(self.cycles@) + violation_fixes(self.violations@),
    {
        let mut r: Vec<String> = Vec::new();
        let mut i: usize = 0;
        while i < self.cycles.len()
            invariant
                i <= self.cycles@.len(),
                r@.map_values(|s: String| s@) == cycle_fixes(self.cycles@.take(i as int)),
            decreases self.cycles.len() - i,
        {
            let c = &self.cycles[i];
            assert(self.cycles@.take(i + 1).drop_last() =~= self.cycles@.take(i as int));
            if c.edges.len() > 0 {
                let e = &c.edges[0];
                r.push(cycle_fix(&e.0, &e.1, e.2));
            }
            assert(r@.map_values(|s: String| s@) =~= cycle_fixes(self.cycles@.take(i + 1)));
            i += 1;
        }
        assert(self.cycles@.take(self.cycles@.len() as int) =~= self.cycles@);
        let ghost base = r@.map_values(|s: String| s@);
        let mut j: usize = 0;
        while j < self.violations.len()
            invariant
                j <= self.violations@.len(),
                base == cycle_fixes(self.cycles@),
                r@.map_values(|s: String| s@) == base + violation_fixes(self.violations@.take(j as int)),
            decreases self.violations.len() - j,
        {
            let ghost before = r@.map_values(|s: String| s@);
            let f = self.violations[j].fix_suggestion();
            r.push(f);
            assert(violation_fixes(self.violations@.take(j + 1)) =~= violation_fixes(self.violations@.take(j as int)).push(f@));
            assert(r@.map_values(|s: String| s@) =~= before.push(f@));
            assert(r@.map_values(|s: String| s@) =~= base + violation_fixes(self.violations@.take(j + 1)));
            j += 1;
        }
        assert(self.violations@.take(self.violations@.len() as int) =~= self.violations@);
        r
    }
}

} // verus!

verus! {

// ---------------------------------------------------------------------------
// Node selections: entry points and orphans
// ---------------------------------------------------------------------------

/// The relative paths of the nodes below `upto` that satisfy `keep`, in index order.
pub open spec fn paths_where(nodes: Seq<FileNode>, keep: spec_fn(int) -> bool, upto: int) -> Seq<Seq<char>>
    decreases upto,
{
    if upto <= 0 {
        seq![]
    } else {
        let rest = paths_where(nodes, keep, upto - 1);
        if keep(upto - 1) {
            rest.push(nodes[upto - 1].relative_path@)
        } else {
            rest
        }
    }
}

/// Nodes that no file imports.
pub open spec fn is_entry(g: DepGraph) -> spec_fn(int) -> bool {
    |i: int| in_degree(g, i) == 0
}

/// Nodes that neither import nor are imported.
pub open spec fn is_orphan(g: DepGraph) -> spec_fn(int) -> bool {
    |i: int| in_degree(g, i) == 0 && out_degree(g, i) == 0
}

/// The relative paths of the entry points (files that no file imports), in node order.
pub open spec fn entry_points_of(g: DepGraph) -> Seq<Seq<char>> {
    paths_where(graph_nodes(g), is_entry(g), graph_nodes(g).len() as int)
}

/// The relative paths of the orphans (no imports in or out), in node order.
pub open spec fn orphans_of(g: DepGraph) -> Seq<Seq<char>> {
    paths_where(graph_nodes(g), is_orphan(g), graph_nodes(g).len() as int)
}

proof fn lemma_paths_where(nodes: Seq<FileNode>, keep: spec_fn(int) -> bool, upto: int, i: int)
    requires
        0 <= i < upto <= nodes.len(),
        keep(i),
    ensures
        paths_where(nodes, keep, upto).contains(nodes[i].relative_path@),
    decreases upto,
{
    let rest = paths_where(nodes, keep, upto - 1);
    if i < upto - 1 {
        lemma_paths_where(nodes, keep, upto - 1, i);
        let q = choose|q: int| 0 <= q < rest.len() && rest[q] == nodes[i].relative_path@;
        if keep(upto - 1) {
            assert(rest.push(nodes[upto - 1].relative_path@)[q] == nodes[i].relative_path@);
        }
    } else {
        assert(rest.push(nodes[i].relative_path@)[rest.len() as int] == nodes[i].relative_path@);
    }
}

proof fn lemma_paths_where_kept(nodes: Seq<FileNode>, keep: spec_fn(int) -> bool, upto: int, x: Seq<char>)
    requires
        0 <= upto <= nodes.len(),
        paths_where(nodes, keep, upto).contains(x),
    ensures
        exists|i: int| 0 <= i < upto && keep(i) && #[trigger] nodes[i].relative_path@ == x,
    decreases upto,
{
    let rest = paths_where(nodes, keep, upto - 1);
    if rest.contains(x) {
        lemma_paths_where_kept(nodes, keep, upto - 1, x);
    } else {
        let q = choose|q: int| 0 <= q < paths_where(nodes, keep, upto).len() && paths_where(nodes, keep, upto)[q] == x;
        if q < rest.len() {
            assert(rest[q] == x);
        }
        assert(keep(upto - 1) && nodes[upto - 1].relative_path@ == x);
    }
}

/// Entry points are exactly the files that no file imports, whatever they import
/// themselves: every node that no edge enters is listed, every listed path is that of such
/// a node, and so every orphan is an entry point.
pub proof fn law_entry_points_are_the_unimported(g: DepGraph)
    ensures
        forall|i: int| 0 <= i < graph_nodes(g).len() && in_degree(g, i) == 0 ==> entry_points_of(g).contains(
            #[trigger] graph_nodes(g)[i].relative_path@,
        ),
        forall|x: Seq<char>| entry_points_of(g).contains(x) ==> exists|i: int|
            0 <= i < graph_nodes(g).len() && in_degree(g, i) == 0 && #[trigger] graph_nodes(g)[i].relative_path@ == x,
        forall|x: Seq<char>| #[trigger] orphans_of(g).contains(x) ==> entry_points_of(g).contains(x),
{
    let nodes = graph_nodes(g);
    let n = nodes.len() as int;
    assert forall|i: int| 0 <= i < n && in_degree(g, i) == 0 implies entry_points_of(g).contains(
        #[trigger] nodes[i].relative_path@,
    ) by {
        lemma_paths_where(nodes, is_entry(g), n, i);
    }
    assert forall|x: Seq<char>| entry_points_of(g).contains(x) implies exists|i: int|
        0 <= i < n && in_degree(g, i) == 0 && #[trigger] nodes[i].relative_path@ == x by {
        lemma_paths_where_kept(nodes, is_entry(g), n, x);
        let i = choose|i: int| 0 <= i < n && is_entry(g)(i) && #[trigger] nodes[i].relative_path@ == x;
        assert(in_degree(g, i) == 0);
    }
    assert forall|x: Seq<char>| #[trigger] orphans_of(g).contains(x) implies entry_points_of(g).contains(x) by {
        lemma_paths_where_kept(nodes, is_orphan(g), n, x);
        let i = choose|i: int| 0 <= i < n && is_orphan(g)(i) && #[trigger] nodes[i].relative_path@ == x;
        lemma_paths_where(nodes, is_entry(g), n, i);
    }
}

/// Identify entry points (files with zero in-degree).
///
/// Entry points are files that are not imported by any other file.
pub fn find_entry_points(graph: &DepGraph) -> (r: Vec<String>)
    ensures
        r@.map_values(|s: String| s@) == entry_points_of(*graph),
{
    let n = graph_node_count(graph);
    let mut r: Vec<String> = Vec::new();
    let mut i: usize = 0;
    while i < n
        invariant
            n == graph_nodes(*graph).len(),
            i <= n,
            r@.map_values(|s: String| s@) == paths_where(graph_nodes(*graph), is_entry(*graph), i as int),
        decreases n - i,
    {
        let ins = graph_edges_directed(graph, i, true);
        if ins.len() == 0 {
            r.push(graph_node(graph, i).relative_path.clone());
        }
        assert(r@.map_values(|s: String| s@) =~= paths_where(graph_nodes(*graph), is_entry(*graph), i + 1));
        i += 1;
    }
    r
}

/// Find orphan files (zero fan-in AND zero fan-out).
pub fn find_orphans(graph: &DepGraph) -> (r: Vec<String>)
    ensures
        r@.map_values(|s: String| s@) == orphans_of(*graph),
{
    let n = graph_node_count(graph);
    let mut r: Vec<String> = Vec::new();
    let mut i: usize = 0;
    while i < n
        invariant
            n == graph_nodes(*graph).len(),
            i <= n,
            r@.map_values(|s: String| s@) == paths_where(graph_nodes(*graph), is_orphan(*graph), i as int),
        decreases n - i,
    {
        let ins = graph_edges_directed(graph, i, true);
        let outs = graph_edges_directed(graph, i, false);
        if ins.len() == 0 && outs.len() == 0 {
            r.push(graph_node(graph, i).relative_path.clone());
        }
        assert(r@.map_values(|s: String| s@) =~= paths_where(graph_nodes(*graph), is_orphan(*graph), i + 1));
        i += 1;
    }
    r
}

// ---------------------------------------------------------------------------
// Fan-in and fan-out
// ---------------------------------------------------------------------------

/// The (relative path, degree) of the nodes below `upto`, in node order; the degree counts
/// incoming edges when `incoming`, outgoing ones otherwise.
pub open spec fn fan_list(g: DepGraph, incoming: bool, upto: int) -> Seq<(Seq<char>, usize)>
    decreases upto,
{
    if upto <= 0 {
        seq![]
    } else {
        let i = upto - 1;
        fan_list(g, incoming, i).push(
            (
                graph_nodes(g)[i].relative_path@,
                (if incoming { in_degree(g, i) } else { out_degree(g, i) }) as usize,
            ),
        )
    }
}

/// `x` placed after every element of `sorted` whose count is at least its own.
pub open spec fn insert_desc(sorted: Seq<(Seq<char>, usize)>, x: (Seq<char>, usize)) -> Seq<(Seq<char>, usize)>
    decreases sorted.len(),
{
    if sorted.len() == 0 {
        seq![x]
    } else if sorted.last().1 >= x.1 {
        sorted.push(x)
    } else {
        insert_desc(sorted.drop_last(), x).push(sorted.last())
    }
}

/// The stable sort of `s` by count, largest first: entries with equal counts keep their
/// order.
pub open spec fn sort_desc(s: Seq<(Seq<char>, usize)>) -> Seq<(Seq<char>, usize)>
    decreases s.len(),
{
    if s.len() == 0 {
        seq![]
    } else {
        insert_desc(sort_desc(s.drop_last()), s.last())
    }
}

/// The counts of `s` never increase.
pub open spec fn is_sorted_desc(s: Seq<(Seq<char>, usize)>) -> bool {
    forall|i: int, j: int| 0 <= i < j < s.len() ==> s[i].1 >= s[j].1
}

/// The fan list of a graph sorted by degree, largest first.
pub open spec fn fan_of(g: DepGraph, incoming: bool) -> Seq<(Seq<char>, usize)> {
    sort_desc(fan_list(g, incoming, graph_nodes(g).len() as int))
}

/// The views of a list of (path, count) pairs.
pub open spec fn pair_views(v: Seq<(String, usize)>) -> Seq<(Seq<char>, usize)> {
    v.map_values(|p: (String, usize)| (p.0@, p.1))
}

proof fn lemma_insert_desc_at(sorted: Seq<(Seq<char>, usize)>, x: (Seq<char>, usize), p: int)
    requires
        0 <= p <= sorted.len(),
        forall|j: int| p <= j < sorted.len() ==> sorted[j].1 < x.1,
        p == 0 || sorted[p - 1].1 >= x.1,
    ensures
        insert_desc(sorted, x) == sorted.insert(p, x),
    decreases sorted.len(),
{
    if sorted.len() == 0 {
        assert(sorted.insert(p, x) =~= seq![x]);
    } else if sorted.last().1 >= x.1 {
        assert(sorted.insert(p, x) =~= sorted.push(x));
    } else {
        lemma_insert_desc_at(sorted.drop_last(), x, p);
        assert(sorted.drop_last().insert(p, x).push(sorted.last()) =~= sorted.insert(p, x));
    }
}

proof fn lemma_insert_desc_sorted(sorted: Seq<(Seq<char>, usize)>, x: (Seq<char>, usize))
    requires
        is_sorted_desc(sorted),
    ensures
        is_sorted_desc(insert_desc(sorted, x)),
        insert_desc(sorted, x).to_multiset() == sorted.to_multiset().insert(x),
        insert_desc(sorted, x).len() == sorted.len() + 1,
    decreases sorted.len(),
{
    broadcast use vstd::seq_lib::group_to_multiset_ensures;
    if sorted.len() == 0 {
        assert(seq![x] =~= Seq::<(Seq<char>, usize)>::empty().push(x));
    } else if sorted.last().1 >= x.1 {
    } else {
        lemma_insert_desc_sorted(sorted.drop_last(), x);
        assert(sorted.drop_last().push(sorted.last()) =~= sorted);
        let r = insert_desc(sorted.drop_last(), x);
        // every element of r is x or an element of sorted.drop_last(), all >= sorted.last()
        assert forall|i: int| 0 <= i < r.len() implies r[i].1 >= sorted.last().1 by {
            assert(r.to_multiset().count(r[i]) > 0);
            assert(r.to_multiset() == sorted.drop_last().to_multiset().insert(x));
            if r[i] != x {
                assert(sorted.drop_last().to_multiset().count(r[i]) > 0);
                assert(sorted.drop_last().contains(r[i]));
                let k = choose|k: int| 0 <= k < sorted.drop_last().len() && sorted.drop_last()[k] == r[i];
                assert(sorted[k] == r[i]);
            }
        }
    }
}

/// The entries of `s` whose count is `c`, in order.
pub open spec fn with_count(s: Seq<(Seq<char>, usize)>, c: usize) -> Seq<(Seq<char>, usize)>
    decreases s.len(),
{
    if s.len() == 0 {
        seq![]
    } else if s.last().1 == c {
        with_count(s.drop_last(), c).push(s.last())
    } else {
        with_count(s.drop_last(), c)
    }
}

proof fn lemma_insert_desc_with_count(t: Seq<(Seq<char>, usize)>, x: (Seq<char>, usize), c: usize)
    ensures
        with_count(insert_desc(t, x), c) == if x.1 == c { with_count(t, c).push(x) } else { with_count(t, c) },
    decreases t.len(),
{
    if t.len() == 0 {
        assert(seq![x].drop_last() =~= Seq::<(Seq<char>, usize)>::empty());
        assert(seq![x].last() == x);
        assert(with_count(t, c) =~= Seq::<(Seq<char>, usize)>::empty());
        assert(Seq::<(Seq<char>, usize)>::empty().push(x) =~= seq![x]);
        let one: Seq<(Seq<char>, usize)> = seq![x];
        assert(insert_desc(t, x) == one);
        assert(with_count(one.drop_last(), c) == Seq::<(Seq<char>, usize)>::empty());
        assert(with_count(one, c) == if x.1 == c { with_count(one.drop_last(), c).push(x) } else { with_count(one.drop_last(), c) });
    } else if t.last().1 >= x.1 {
        assert(t.push(x).drop_last() =~= t);
        assert(t.push(x).last() == x);
    } else {
        lemma_insert_desc_with_count(t.drop_last(), x, c);
        let r = insert_desc(t.drop_last(), x);
        assert(r.push(t.last()).drop_last() =~= r);
        assert(r.push(t.last()).last() == t.last());
        assert(insert_desc(t, x) == r.push(t.last()));
    }
}

/// Sorting by count keeps the order of entries with equal counts.
proof fn lemma_sort_desc_with_count(s: Seq<(Seq<char>, usize)>, c: usize)
    ensures
        with_count(sort_desc(s), c) == with_count(s, c),
    decreases s.len(),
{
    if s.len() > 0 {
        lemma_sort_desc_with_count(s.drop_last(), c);
        lemma_insert_desc_with_count(sort_desc(s.drop_last()), s.last(), c);
    }
}

/// Fan lists keep node order among equal counts: the entries with any one count come in
/// the order of their nodes.
pub proof fn law_fan_ties_keep_node_order(g: DepGraph, incoming: bool, c: usize)
    ensures
        with_count(fan_of(g, incoming), c) == with_count(fan_list(g, incoming, graph_nodes(g).len() as int), c),
{
    lemma_sort_desc_with_count(fan_list(g, incoming, graph_nodes(g).len() as int), c);
}

proof fn lemma_sort_desc(s: Seq<(Seq<char>, usize)>)
    ensures
        is_sorted_desc(sort_desc(s)),
        sort_desc(s).to_multiset() == s.to_multiset(),
        sort_desc(s).len() == s.len(),
    decreases s.len(),
{
    broadcast use vstd::seq_lib::group_to_multiset_ensures;
    if s.len() > 0 {
        lemma_sort_desc(s.drop_last());
        lemma_insert_desc_sorted(sort_desc(s.drop_last()), s.last());
        assert(s.drop_last().push(s.last()) =~= s);
    }
}

/// Calculate the degree of every node, sorted largest first (stable).
fn calculate_fan(graph: &DepGraph, incoming: bool) -> (r: Vec<(String, usize)>)
    ensures
        pair_views(r@) == fan_of(*graph, incoming),
{
    let n = graph_node_count(graph);
    let mut r: Vec<(String, usize)> = Vec::new();
    let mut i: usize = 0;
    assert(pair_views(r@) =~= seq![]);
    while i < n
        invariant
            n == graph_nodes(*graph).len(),
            i <= n,
            pair_views(r@) == sort_desc(fan_list(*graph, incoming, i as int)),
        decreases n - i,
    {
        let path = graph_node(graph, i).relative_path.clone();
        let count = graph_edges_directed(graph, i, incoming).len();
        let ghost x = (path@, count);
        let mut p: usize = r.len();
        while p > 0 && r[p - 1].1 < count
            invariant
                p <= r@.len(),
                forall|j: int| p <= j < r@.len() ==> r@[j].1 < count,
            decreases p,
        {
            p -= 1;
        }
        proof {
            lemma_insert_desc_at(pair_views(r@), x, p as int);
            assert(fan_list(*graph, incoming, i + 1).drop_last() =~= fan_list(*graph, incoming, i as int));
        }
        let ghost before = r@;
        r.insert(p, (path, count));
        assert(pair_views(r@) =~= pair_views(before).insert(p as int, x));
        i += 1;
    }
    r
}

} // verus!

verus! {

/// Calculate fan-out (number of imports) for each node, largest first; nodes with equal
/// fan-out keep their node order. The result lists every node once, sorted.
pub fn calculate_fan_out(graph: &DepGraph) -> (r: Vec<(String, usize)>)
    ensures
        pair_views(r@) == fan_of(*graph, false),
        is_sorted_desc(pair_views(r@)),
        pair_views(r@).to_multiset() == fan_list(*graph, false, graph_nodes(*graph).len() as int).to_multiset(),
{
    proof {
        lemma_sort_desc(fan_list(*graph, false, graph_nodes(*graph).len() as int));
    }
    calculate_fan(graph, false)
}

/// Calculate fan-in (number of files importing this) for each node, largest first; nodes
/// with equal fan-in keep their node order. The result lists every node once, sorted.
pub fn calculate_fan_in(graph: &DepGraph) -> (r: Vec<(String, usize)>)
    ensures
        pair_views(r@) == fan_of(*graph, true),
        is_sorted_desc(pair_views(r@)),
        pair_views(r@).to_multiset() == fan_list(*graph, true, graph_nodes(*graph).len() as int).to_multiset(),
{
    proof {
        lemma_sort_desc(fan_list(*graph, true, graph_nodes(*graph).len() as int));
    }
    calculate_fan(graph, true)
}

// ---------------------------------------------------------------------------
// Layer violations
// ---------------------------------------------------------------------------

/// The violations among the edges below `upto`, in edge order.
pub open spec fn violations_upto(g: DepGraph, upto: int) -> Seq<ViolationView>
    decreases upto,
{
    if upto <= 0 {
        seq![]
    } else {
        let rest = violations_upto(g, upto - 1);
        let e = graph_edges(g)[upto - 1];
        let s = graph_nodes(g)[e.0 as int];
        let t = graph_nodes(g)[e.1 as int];
        if violates(s.layer, t.layer) {
            rest.push(
                ViolationView {
                    file: s.relative_path@,
                    imports: t.relative_path@,
                    from_layer: s.layer,
                    to_layer: t.layer,
                    line: e.2.line,
                    reason: reason_text(s.layer, t.layer),
                },
            )
        } else {
            rest
        }
    }
}

/// The layer violations of a graph: one per edge whose source layer may not import the
/// target layer, in edge order.
pub open spec fn violations_of(g: DepGraph) -> Seq<ViolationView> {
    violations_upto(g, graph_edges(g).len() as int)
}

proof fn lemma_violations_upto_has(g: DepGraph, upto: int, e: int)
    requires
        0 <= e < upto <= graph_edges(g).len(),
        violates(graph_nodes(g)[graph_edges(g)[e].0 as int].layer, graph_nodes(g)[graph_edges(g)[e].1 as int].layer),
    ensures
        violations_upto(g, upto).contains(
            ({
                let x = graph_edges(g)[e];
                let s = graph_nodes(g)[x.0 as int];
                let t = graph_nodes(g)[x.1 as int];
                ViolationView {
                    file: s.relative_path@,
                    imports: t.relative_path@,
                    from_layer: s.layer,
                    to_layer: t.layer,
                    line: x.2.line,
                    reason: reason_text(s.layer, t.layer),
                }
            }),
        ),
    decreases upto,
{
    let rest = violations_upto(g, upto - 1);
    let all = violations_upto(g, upto);
    if e < upto - 1 {
        lemma_violations_upto_has(g, upto - 1, e);
        let x = graph_edges(g)[e];
        let v = ViolationView {
            file: graph_nodes(g)[x.0 as int].relative_path@,
            imports: graph_nodes(g)[x.1 as int].relative_path@,
            from_layer: graph_nodes(g)[x.0 as int].layer,
            to_layer: graph_nodes(g)[x.1 as int].layer,
            line: x.2.line,
            reason: reason_text(graph_nodes(g)[x.0 as int].layer, graph_nodes(g)[x.1 as int].layer),
        };
        let q = choose|q: int| 0 <= q < rest.len() && rest[q] == v;
        assert(all[q] == v);
    } else {
        assert(all[rest.len() as int] == all.last());
    }
}

/// Every import that reaches up the layer stack is reported, once per import edge: a
/// violation naming the importing file and its layer, the imported file and its layer,
/// the import's line, and the reason "<from> layer cannot import from <to> layer".
pub proof fn law_every_upward_import_is_reported(g: DepGraph, e: int)
    requires
        0 <= e < graph_edges(g).len(),
        violates(graph_nodes(g)[graph_edges(g)[e].0 as int].layer, graph_nodes(g)[graph_edges(g)[e].1 as int].layer),
    ensures
        violations_of(g).contains(
            ({
                let x = graph_edges(g)[e];
                let s = graph_nodes(g)[x.0 as int];
                let t = graph_nodes(g)[x.1 as int];
                ViolationView {
                    file: s.relative_path@,
                    imports: t.relative_path@,
                    from_layer: s.layer,
                    to_layer: t.layer,
                    line: x.2.line,
                    reason: layer_name(s.layer) + " layer cannot import from "@ + layer_name(t.layer) + " layer"@,
                }
            }),
        ),
{
    lemma_violations_upto_has(g, graph_edges(g).len() as int, e);
}

/// Import edge `e` reaches up the layer stack.
pub open spec fn edge_violates(g: DepGraph, e: int) -> bool {
    violates(graph_nodes(g)[graph_edges(g)[e].0 as int].layer, graph_nodes(g)[graph_edges(g)[e].1 as int].layer)
}

proof fn lemma_violations_upto_from(g: DepGraph, upto: int, k: int)
    requires
        0 <= upto <= graph_edges(g).len(),
        0 <= k < violations_upto(g, upto).len(),
    ensures
        exists|e: int|
            0 <= e < upto && #[trigger] edge_violates(g, e) && violations_upto(g, upto)[k].file
                == graph_nodes(g)[graph_edges(g)[e].0 as int].relative_path@ && violations_upto(g, upto)[k].imports
                == graph_nodes(g)[graph_edges(g)[e].1 as int].relative_path@ && violations_upto(g, upto)[k].line
                == graph_edges(g)[e].2.line,
    decreases upto,
{
    let rest = violations_upto(g, upto - 1);
    if k < rest.len() {
        lemma_violations_upto_from(g, upto - 1, k);
        let e = choose|e: int|
            0 <= e < upto - 1 && #[trigger] edge_violates(g, e) && rest[k].file
                == graph_nodes(g)[graph_edges(g)[e].0 as int].relative_path@ && rest[k].imports
                == graph_nodes(g)[graph_edges(g)[e].1 as int].relative_path@ && rest[k].line == graph_edges(g)[e].2.line;
        assert(violations_upto(g, upto)[k] == rest[k]);
    } else {
        assert(edge_violates(g, upto - 1));
    }
}

/// Nothing but upward imports is reported: every violation found is that of an import edge
/// whose importing file's layer stands below the imported file's, with that edge's files
/// and line.
pub proof fn law_only_upward_imports_are_reported(g: DepGraph, k: int)
    requires
        0 <= k < violations_of(g).len(),
    ensures
        exists|e: int|
            0 <= e < graph_edges(g).len() && #[trigger] edge_violates(g, e) && violations_of(g)[k].file
                == graph_nodes(g)[graph_edges(g)[e].0 as int].relative_path@ && violations_of(g)[k].imports
                == graph_nodes(g)[graph_edges(g)[e].1 as int].relative_path@ && violations_of(g)[k].line
                == graph_edges(g)[e].2.line,
{
    lemma_violations_upto_from(g, graph_edges(g).len() as int, k);
}

/// Find all layer rule violations in the dependency graph.
///
/// Checks each edge against the layer hierarchy: a layer can only import from layers at
/// the same level or lower, Entry (0) -> App (1) -> Core (2) -> Platform (3) -> Driver (4)
/// -> Arch (5); Unknown files are not checked.
pub fn find_violations(graph: &DepGraph) -> (r: Vec<LayerViolation>)
    ensures
        violation_views(r@) == violations_of(*graph),
{
    let edges = graph_raw_edges(graph);
    let mut r: Vec<LayerViolation> = Vec::new();
    let mut i: usize = 0;
    while i < edges.len()
        invariant
            edges@ == graph_edges(*graph),
            edges_within(edges@, graph_nodes(*graph).len()),
            i <= edges@.len(),
            violation_views(r@) == violations_upto(*graph, i as int),
        decreases edges.len() - i,
    {
        let (a, b, w) = edges[i];
        assert(edges@[i as int] == (a, b, w));
        let source_node = graph_node(graph, a);
        let target_node = graph_node(graph, b);
        if is_layer_violation(source_node.layer, target_node.layer) {
            let v = LayerViolation::new(
                source_node.relative_path.clone(),
                target_node.relative_path.clone(),
                source_node.layer,
                target_node.layer,
                w.line,
            );
            r.push(v);
        }
        assert(violation_views(r@) =~= violations_upto(*graph, i + 1));
        i += 1;
    }
    r
}

} // verus!

verus! {

// ---------------------------------------------------------------------------
// Depths
// ---------------------------------------------------------------------------

/// Depths as numbers.
pub open spec fn depth_view(v: Seq<Option<usize>>) -> Seq<Option<nat>> {
    v.map_values(|o: Option<usize>| match o {
        Some(x) => Some(x as nat),
        None => None,
    })
}

/// Entry points start at depth 0; no other node has a depth yet.
pub open spec fn initial_depths(g: DepGraph) -> Seq<Option<nat>> {
    Seq::new(graph_nodes(g).len(), |i: int| if in_degree(g, i) == 0 { Some(0nat) } else { None })
}

/// `d` after raising the targets of the edges `outs[0..k]` to at least `new`.
pub open spec fn relax_edges(
    d: Seq<Option<nat>>,
    edges: Seq<(usize, usize, Import)>,
    outs: Seq<usize>,
    new: nat,
    k: int,
) -> Seq<Option<nat>>
    decreases k,
{
    if k <= 0 {
        d
    } else {
        let d1 = relax_edges(d, edges, outs, new, k - 1);
        let t = edges[outs[k - 1] as int].1 as int;
        if d1[t] is None || d1[t]->0 < new {
            d1.update(t, Some(new))
        } else {
            d1
        }
    }
}

/// `d` after raising every target of node `v` to one more than the depth of `v` (0 when
/// `v` has none), edge by edge in `edges_directed` order.
pub open spec fn relax_node(g: DepGraph, d: Seq<Option<nat>>, v: int) -> Seq<Option<nat>> {
    let outs = incident(graph_edges(g), v, false);
    let new = (match d[v] {
        Some(x) => x,
        None => 0,
    }) + 1;
    relax_edges(d, graph_edges(g), outs, new as nat, outs.len() as int)
}

/// `d` after relaxing nodes `0..upto` in order.
pub open spec fn relax_pass(g: DepGraph, d: Seq<Option<nat>>, upto: int) -> Seq<Option<nat>>
    decreases upto,
{
    if upto <= 0 {
        d
    } else {
        relax_node(g, relax_pass(g, d, upto - 1), upto - 1)
    }
}

/// At most `k` more passes over all nodes, stopping after a pass that changes nothing.
pub open spec fn depth_rounds(g: DepGraph, d: Seq<Option<nat>>, k: nat) -> Seq<Option<nat>>
    decreases k,
{
    if k == 0 {
        d
    } else {
        let d2 = relax_pass(g, d, graph_nodes(g).len() as int);
        if d2 == d {
            d
        } else {
            depth_rounds(g, d2, (k - 1) as nat)
        }
    }
}

/// The depth of each node: entry points have depth 0, and passes over the nodes (at most
/// as many as there are nodes) raise the target of every edge to one more than its
/// source's depth. On an acyclic graph this is the longest path from an entry point
/// (`law_depth_is_longest_walk`).
pub open spec fn depths_of(g: DepGraph) -> Seq<Option<nat>> {
    depth_rounds(g, initial_depths(g), graph_nodes(g).len())
}

/// Option order: `a` is at least `b`.
pub open spec fn opt_ge(a: Option<nat>, b: Option<nat>) -> bool {
    b is None || (a is Some && a->0 >= b->0)
}

/// Every depth in `d` is at most `bound`.
pub open spec fn bounded(d: Seq<Option<nat>>, bound: int) -> bool {
    forall|i: int| 0 <= i < d.len() ==> (#[trigger] d[i] matches Some(x) ==> x <= bound)
}

/// `a` is at least `b` at every node.
pub open spec fn dominates(a: Seq<Option<nat>>, b: Seq<Option<nat>>) -> bool {
    &&& a.len() == b.len()
    &&& forall|i: int| 0 <= i < a.len() ==> opt_ge(#[trigger] a[i], b[i])
}

proof fn lemma_dominates_trans(a: Seq<Option<nat>>, b: Seq<Option<nat>>, c: Seq<Option<nat>>)
    requires
        dominates(a, b),
        dominates(b, c),
    ensures
        dominates(a, c),
{
    assert forall|i: int| 0 <= i < a.len() implies opt_ge(#[trigger] a[i], c[i]) by {
        assert(opt_ge(a[i], b[i]));
        assert(opt_ge(b[i], c[i]));
    }
}

/// The edges of `outs` are edges, whose targets are nodes of `d`.
pub open spec fn targets_within(d: Seq<Option<nat>>, edges: Seq<(usize, usize, Import)>, outs: Seq<usize>) -> bool {
    forall|j: int| 0 <= j < outs.len() ==> #[trigger] outs[j] < edges.len() && edges[outs[j] as int].1 < d.len()
}

/// Relaxing more edges only raises depths.
proof fn lemma_relax_edges_grows(
    d: Seq<Option<nat>>,
    edges: Seq<(usize, usize, Import)>,
    outs: Seq<usize>,
    new: nat,
    k1: int,
    k2: int,
)
    requires
        0 <= k1 <= k2 <= outs.len(),
        targets_within(d, edges, outs),
    ensures
        dominates(relax_edges(d, edges, outs, new, k2), relax_edges(d, edges, outs, new, k1)),
    decreases k2,
{
    if k2 == k1 {
        let r = relax_edges(d, edges, outs, new, k1);
        assert forall|i: int| 0 <= i < r.len() implies opt_ge(#[trigger] r[i], r[i]) by {}
    } else {
        lemma_relax_edges_grows(d, edges, outs, new, k1, k2 - 1);
        lemma_relax_edges_len(d, edges, outs, new, k2 - 1);
        let d1 = relax_edges(d, edges, outs, new, k2 - 1);
        let d2 = relax_edges(d, edges, outs, new, k2);
        let t = edges[outs[k2 - 1] as int].1 as int;
        assert(outs[k2 - 1] < edges.len());
        assert forall|i: int| 0 <= i < d2.len() implies opt_ge(#[trigger] d2[i], d1[i]) by {}
        lemma_dominates_trans(d2, d1, relax_edges(d, edges, outs, new, k1));
    }
}

/// Relaxing edges keeps the number of nodes.
proof fn lemma_relax_edges_len(
    d: Seq<Option<nat>>,
    edges: Seq<(usize, usize, Import)>,
    outs: Seq<usize>,
    new: nat,
    k: int,
)
    requires
        0 <= k <= outs.len(),
        targets_within(d, edges, outs),
    ensures
        relax_edges(d, edges, outs, new, k).len() == d.len(),
    decreases k,
{
    if k > 0 {
        lemma_relax_edges_len(d, edges, outs, new, k - 1);
        assert(outs[k - 1] < edges.len());
    }
}

/// Once edge `j` is relaxed, its target's depth is at least `new`.
proof fn lemma_relax_edges_hits(
    d: Seq<Option<nat>>,
    edges: Seq<(usize, usize, Import)>,
    outs: Seq<usize>,
    new: nat,
    k: int,
    j: int,
)
    requires
        0 <= j < k <= outs.len(),
        targets_within(d, edges, outs),
    ensures
        opt_ge(relax_edges(d, edges, outs, new, k)[edges[outs[j] as int].1 as int], Some(new)),
    decreases k,
{
    lemma_relax_edges_len(d, edges, outs, new, k - 1);
    assert(outs[k - 1] < edges.len());
    assert(outs[j] < edges.len());
    if j < k - 1 {
        lemma_relax_edges_hits(d, edges, outs, new, k - 1, j);
        lemma_relax_edges_grows(d, edges, outs, new, k - 1, k);
        let t = edges[outs[j] as int].1 as int;
        assert(opt_ge(relax_edges(d, edges, outs, new, k)[t], relax_edges(d, edges, outs, new, k - 1)[t]));
    }
}

/// The edges leaving `v` are edges whose targets are nodes.
proof fn lemma_outs_within(g: DepGraph, d: Seq<Option<nat>>, v: int)
    requires
        d.len() == graph_nodes(g).len(),
        edges_within(graph_edges(g), graph_nodes(g).len()),
    ensures
        targets_within(d, graph_edges(g), incident(graph_edges(g), v, false)),
{
    let edges = graph_edges(g);
    let outs = incident(edges, v, false);
    assert forall|j: int| 0 <= j < outs.len() implies #[trigger] outs[j] < edges.len() && edges[outs[j] as int].1 < d.len() by {
        lemma_incident_bound(edges, v, false, edges.len() as int, j);
    }
}

/// Relaxing more nodes only raises depths.
proof fn lemma_relax_pass_grows(g: DepGraph, d: Seq<Option<nat>>, v1: int, v2: int)
    requires
        0 <= v1 <= v2,
        d.len() == graph_nodes(g).len(),
        edges_within(graph_edges(g), graph_nodes(g).len()),
    ensures
        dominates(relax_pass(g, d, v2), relax_pass(g, d, v1)),
        relax_pass(g, d, v2).len() == d.len(),
    decreases v2,
{
    if v2 == 0 {
        assert forall|i: int| 0 <= i < d.len() implies opt_ge(#[trigger] d[i], d[i]) by {}
    } else if v2 == v1 {
        lemma_relax_pass_grows(g, d, v1 - 1, v2 - 1);
        let r = relax_pass(g, d, v2);
        lemma_relax_pass_grows(g, d, 0, v2 - 1);
        let p = relax_pass(g, d, v2 - 1);
        lemma_outs_within(g, p, v2 - 1);
        let outs = incident(graph_edges(g), v2 - 1, false);
        let new = (match p[v2 - 1] {
            Some(x) => x,
            None => 0,
        }) + 1;
        lemma_relax_edges_len(p, graph_edges(g), outs, new as nat, outs.len() as int);
        assert forall|i: int| 0 <= i < r.len() implies opt_ge(#[trigger] r[i], r[i]) by {}
    } else {
        lemma_relax_pass_grows(g, d, v1, v2 - 1);
        let p = relax_pass(g, d, v2 - 1);
        lemma_outs_within(g, p, v2 - 1);
        let outs = incident(graph_edges(g), v2 - 1, false);
        let new = (match p[v2 - 1] {
            Some(x) => x,
            None => 0,
        }) + 1;
        lemma_relax_edges_grows(p, graph_edges(g), outs, new as nat, 0, outs.len() as int);
        lemma_relax_edges_len(p, graph_edges(g), outs, new as nat, outs.len() as int);
        lemma_dominates_trans(relax_pass(g, d, v2), p, relax_pass(g, d, v1));
    }
}

/// Further rounds only raise depths, and after at least one round the depths dominate
/// the pass over all nodes.
proof fn lemma_rounds_grow(g: DepGraph, d: Seq<Option<nat>>, k: nat)
    requires
        d.len() == graph_nodes(g).len(),
        edges_within(graph_edges(g), graph_nodes(g).len()),
    ensures
        dominates(depth_rounds(g, d, k), d),
        k > 0 ==> dominates(depth_rounds(g, d, k), relax_pass(g, d, graph_nodes(g).len() as int)),
    decreases k,
{
    let n = graph_nodes(g).len() as int;
    lemma_relax_pass_grows(g, d, 0, n);
    let d2 = relax_pass(g, d, n);
    if k == 0 {
        assert forall|i: int| 0 <= i < d.len() implies opt_ge(#[trigger] d[i], d[i]) by {}
    } else if d2 == d {
        assert forall|i: int| 0 <= i < d.len() implies opt_ge(#[trigger] d[i], d[i]) by {}
    } else {
        lemma_rounds_grow(g, d2, (k - 1) as nat);
        let r = depth_rounds(g, d2, (k - 1) as nat);
        assert forall|i: int| 0 <= i < d2.len() implies opt_ge(#[trigger] d2[i], d2[i]) by {}
        lemma_dominates_trans(r, d2, d);
    }
}

/// Calculate depth for each node from entry points.
///
/// Depth is the longest path from any entry point to the node; passes stop after as many
/// rounds as there are nodes, which bounds the work on cyclic graphs. Returns the depth of
/// each node by index (`None` for nodes that never got one). Every depth reached must fit
/// in a `usize`.
pub fn calculate_depths(graph: &DepGraph) -> (r: Vec<Option<usize>>)
    requires
        bounded(depths_of(*graph), usize::MAX as int),
    ensures
        depth_view(r@) == depths_of(*graph),
        r@.len() == graph_nodes(*graph).len(),
{
    let n = graph_node_count(graph);
    let edges = graph_raw_edges(graph);
    let mut depths: Vec<Option<usize>> = Vec::new();
    let mut i: usize = 0;
    while i < n
        invariant
            n == graph_nodes(*graph).len(),
            i <= n,
            depth_view(depths@) == initial_depths(*graph).take(i as int),
        decreases n - i,
    {
        let ins = graph_edges_directed(graph, i, true);
        let ghost before = depth_view(depths@);
        let d: Option<usize> = if ins.len() == 0 { Some(0) } else { None };
        depths.push(d);
        assert(ins@.len() == in_degree(*graph, i as int));
        assert(depth_view(depths@) =~= before.push(initial_depths(*graph)[i as int]));
        assert(depth_view(depths@) =~= initial_depths(*graph).take(i + 1));
        i += 1;
    }
    assert(initial_depths(*graph).take(n as int) =~= initial_depths(*graph));
    let mut round: usize = 0;
    while round < n
        invariant
            n == graph_nodes(*graph).len(),
            bounded(depths_of(*graph), usize::MAX as int),
            edges@ == graph_edges(*graph),
            edges_within(edges@, n as nat),
            round <= n,
            depths@.len() == n,
            depths_of(*graph) == depth_rounds(*graph, depth_view(depths@), (n - round) as nat),
        decreases n - round,
    {
        let ghost orig = depth_view(depths@);
        proof {
            lemma_rounds_grow(*graph, orig, (n - round) as nat);
            lemma_relax_pass_grows(*graph, orig, 0, n as int);
        }
        let mut changed = false;
        let mut v: usize = 0;
        while v < n
            invariant
                n == graph_nodes(*graph).len(),
                bounded(depths_of(*graph), usize::MAX as int),
                dominates(depths_of(*graph), relax_pass(*graph, orig, n as int)),
                edges@ == graph_edges(*graph),
                edges_within(edges@, n as nat),
                round < n,
                v <= n,
                depths@.len() == n,
                orig.len() == n,
                depth_view(depths@) == relax_pass(*graph, orig, v as int),
                forall|k: int| 0 <= k < n ==> opt_ge(depth_view(depths@)[k], orig[k]),
                !changed ==> depth_view(depths@) == orig,
                changed ==> exists|k: int| 0 <= k < n && depth_view(depths@)[k] != orig[k],
            decreases n - v,
        {
            let cur = depths[v];
            let outs = graph_edges_directed(graph, v, false);
            let base: usize = match cur {
                Some(x) => x,
                None => 0,
            };
            assert(depth_view(depths@)[v as int] == match cur {
                Some(x) => Some(x as nat),
                None => None::<nat>,
            });
            let ghost d0 = depth_view(depths@);
            proof {
                lemma_outs_within(*graph, d0, v as int);
                lemma_relax_pass_grows(*graph, orig, (v + 1) as int, n as int);
            }
            if outs.len() > 0 {
                proof {
                    let nw = (base + 1) as nat;
                    let full = relax_edges(d0, edges@, outs@, nw, outs@.len() as int);
                    assert(full == relax_pass(*graph, orig, v + 1));
                    lemma_relax_edges_hits(d0, edges@, outs@, nw, outs@.len() as int, 0);
                    let t0 = edges@[outs@[0] as int].1 as int;
                    assert(opt_ge(depths_of(*graph)[t0], full[t0]));
                    assert(depths_of(*graph)[t0] matches Some(x) ==> x <= usize::MAX);
                }
                let new: usize = base + 1;
                let mut k: usize = 0;
                while k < outs.len()
                    invariant
                        n == graph_nodes(*graph).len(),
                        edges@ == graph_edges(*graph),
                        edges_within(edges@, n as nat),
                        outs@ == incident(graph_edges(*graph), v as int, false),
                        k <= outs@.len(),
                        depths@.len() == n,
                        d0.len() == n,
                        orig.len() == n,
                        depth_view(depths@) == relax_edges(d0, edges@, outs@, new as nat, k as int),
                        forall|j: int| 0 <= j < n ==> opt_ge(depth_view(depths@)[j], d0[j]),
                        forall|j: int| 0 <= j < n ==> opt_ge(d0[j], orig[j]),
                        !changed ==> d0 == orig,
                        !changed ==> depth_view(depths@) == orig,
                        changed ==> exists|j: int| 0 <= j < n && depth_view(depths@)[j] != orig[j],
                    decreases outs.len() - k,
                {
                    let e = outs[k];
                    proof {
                        lemma_incident_bound(edges@, v as int, false, edges@.len() as int, k as int);
                    }
                    let t = edges[e].1;
                    let upd = match depths[t] {
                        None => true,
                        Some(x) => x < new,
                    };
                    let ghost before = depth_view(depths@);
                    if upd {
                        depths.set(t, Some(new));
                        changed = true;
                        assert(depth_view(depths@) =~= before.update(t as int, Some(new as nat)));
                        assert(depth_view(depths@)[t as int] != orig[t as int]);
                    }
                    k += 1;
                }
            }
            proof {
                assert(depth_view(depths@) == relax_node(*graph, relax_pass(*graph, orig, v as int), v as int));
            }
            v += 1;
        }
        if !changed {
            return depths;
        }
        round += 1;
    }
    depths
}

/// Every edge index in an incident list is an edge.
proof fn lemma_incident_bound(
    edges: Seq<(usize, usize, Import)>,
    a: int,
    incoming: bool,
    upto: int,
    k: int,
)
    requires
        0 <= upto <= edges.len(),
        0 <= k < crate::graph::incident_from(edges, a, incoming, upto).len(),
    ensures
        crate::graph::incident_from(edges, a, incoming, upto)[k] < upto,
    decreases upto,
{
    if upto > 0 {
        let rest = crate::graph::incident_from(edges, a, incoming, upto - 1);
        let e = edges[upto - 1];
        if (if incoming { e.1 } else { e.0 }) == a {
            if k > 0 {
                lemma_incident_bound(edges, a, incoming, upto - 1, k - 1);
            }
        } else {
            lemma_incident_bound(edges, a, incoming, upto - 1, k);
        }
    }
}

} // verus!

verus! {

// ---------------------------------------------------------------------------
// Deepest path
// ---------------------------------------------------------------------------

/// The greatest depth among `d[0..upto]`, or 0 when none has a depth.
pub open spec fn max_depth_upto(d: Seq<Option<nat>>, upto: int) -> nat
    decreases upto,
{
    if upto <= 0 {
        0
    } else {
        let rest = max_depth_upto(d, upto - 1);
        match d[upto - 1] {
            Some(x) => if x > rest { x } else { rest },
            None => rest,
        }
    }
}

/// The greatest depth in `d`, or 0 when none has a depth.
pub open spec fn max_depth_of(d: Seq<Option<nat>>) -> nat {
    max_depth_upto(d, d.len() as int)
}

/// The node of greatest depth among `d[0..upto]`: the last one in node order among
/// equals; `None` when none has a depth.
pub open spec fn deepest_upto(d: Seq<Option<nat>>, upto: int) -> Option<int>
    decreases upto,
{
    if upto <= 0 {
        None
    } else {
        let rest = deepest_upto(d, upto - 1);
        match d[upto - 1] {
            Some(x) => match rest {
                Some(b) => if x >= d[b]->0 { Some(upto - 1) } else { Some(b) },
                None => Some(upto - 1),
            },
            None => rest,
        }
    }
}

/// The first position `k` or later in `ins` whose edge comes from a node of depth `want`.
pub open spec fn first_parent(
    edges: Seq<(usize, usize, Import)>,
    ins: Seq<usize>,
    d: Seq<Option<nat>>,
    want: nat,
    k: int,
) -> Option<int>
    decreases ins.len() - k,
{
    if k < 0 || k >= ins.len() {
        None
    } else if d[edges[ins[k] as int].0 as int] == Some(want) {
        Some(k)
    } else {
        first_parent(edges, ins, d, want, k + 1)
    }
}

pub proof fn lemma_first_parent(
    edges: Seq<(usize, usize, Import)>,
    ins: Seq<usize>,
    d: Seq<Option<nat>>,
    want: nat,
    k: int,
)
    ensures
        first_parent(edges, ins, d, want, k) matches Some(p) ==> k <= p < ins.len() && d[edges[ins[p] as int].0 as int] == Some(want),
    decreases ins.len() - k,
{
    if 0 <= k < ins.len() {
        lemma_first_parent(edges, ins, d, want, k + 1);
    }
}

/// The nodes from `cur` back towards an entry point: each step goes to the source of the
/// first incoming edge (in `edges_directed` order) whose source is one level shallower;
/// the walk stops at depth 0, at a node without a depth, or when no such edge exists.
pub open spec fn walk_back(g: DepGraph, d: Seq<Option<nat>>, cur: int) -> Seq<int>
    decreases (match d[cur] {
        Some(x) => x,
        None => 0,
    }),
{
    match d[cur] {
        Some(x) => if x == 0 {
            seq![cur]
        } else {
            let ins = incident(graph_edges(g), cur, true);
            match first_parent(graph_edges(g), ins, d, (x - 1) as nat, 0) {
                Some(p) => {
                    proof {
                        lemma_first_parent(graph_edges(g), ins, d, (x - 1) as nat, 0);
                    }
                    seq![cur] + walk_back(g, d, graph_edges(g)[ins[p] as int].0 as int)
                },
                None => seq![cur],
            }
        },
        None => seq![cur],
    }
}

/// The relative paths of a list of nodes.
pub open spec fn node_paths(g: DepGraph, ns: Seq<int>) -> Seq<Seq<char>> {
    ns.map_values(|i: int| graph_nodes(g)[i].relative_path@)
}

/// The path from an entry point to the node of greatest depth (empty for an empty graph).
pub open spec fn deepest_path_of(g: DepGraph) -> Seq<Seq<char>> {
    let d = depths_of(g);
    match deepest_upto(d, d.len() as int) {
        Some(t) => node_paths(g, walk_back(g, d, t).reverse()),
        None => seq![],
    }
}

/// The greatest depth computed by `calculate_depths`, or 0 when no node has one.
pub fn max_depth(depths: &Vec<Option<usize>>) -> (m: usize)
    ensures
        m == max_depth_of(depth_view(depths@)),
{
    let mut m: usize = 0;
    let mut i: usize = 0;
    while i < depths.len()
        invariant
            i <= depths@.len(),
            m == max_depth_upto(depth_view(depths@), i as int),
        decreases depths.len() - i,
    {
        match depths[i] {
            Some(x) => {
                if x > m {
                    m = x;
                }
            },
            None => {},
        }
        i += 1;
    }
    m
}

/// The last node of greatest depth, if any node has a depth.
fn deepest_node(depths: &Vec<Option<usize>>) -> (r: Option<usize>)
    ensures
        r matches Some(t) ==> deepest_upto(depth_view(depths@), depths@.len() as int) == Some(t as int) && t < depths@.len(),
        r is None ==> deepest_upto(depth_view(depths@), depths@.len() as int) is None,
{
    let mut best: Option<usize> = None;
    let mut i: usize = 0;
    while i < depths.len()
        invariant
            i <= depths@.len(),
            best matches Some(b) ==> deepest_upto(depth_view(depths@), i as int) == Some(b as int) && b < i && depths@[b as int] is Some,
            best is None ==> deepest_upto(depth_view(depths@), i as int) is None,
        decreases depths.len() - i,
    {
        match depths[i] {
            Some(x) => {
                match best {
                    Some(b) => {
                        let bd = match depths[b] {
                            Some(y) => y,
                            None => 0,
                        };
                        if x >= bd {
                            best = Some(i);
                        }
                    },
                    None => {
                        best = Some(i);
                    },
                }
            },
            None => {},
        }
        i += 1;
    }
    best
}

/// The elements of `v` in reverse order.
pub fn reversed_strings(v: &Vec<String>) -> (r: Vec<String>)
    ensures
        r@.map_values(|s: String| s@) == v@.map_values(|s: String| s@).reverse(),
{
    let ghost vv = v@.map_values(|s: String| s@);
    let mut r: Vec<String> = Vec::new();
    let mut j: usize = v.len();
    assert(vv.subrange(j as int, v@.len() as int).reverse() =~= seq![]);
    while j > 0
        invariant
            j <= v@.len(),
            vv == v@.map_values(|s: String| s@),
            r@.map_values(|s: String| s@) == vv.subrange(j as int, v@.len() as int).reverse(),
        decreases j,
    {
        j -= 1;
        let ghost before = r@.map_values(|s: String| s@);
        r.push(v[j].clone());
        assert(r@.map_values(|s: String| s@) =~= before.push(vv[j as int]));
        assert(vv.subrange(j as int, v@.len() as int).reverse() =~= vv.subrange(j + 1, v@.len() as int).reverse().push(vv[j as int]));
    }
    assert(vv.subrange(0, v@.len() as int) =~= vv);
    r
}

/// Reconstruct the path from an entry point to `target`, walking back through incoming
/// edges from nodes one level shallower.
fn reconstruct_path_to_node(graph: &DepGraph, target: usize, depths: &Vec<Option<usize>>) -> (r: Vec<String>)
    requires
        depths@.len() == graph_nodes(*graph).len(),
        target < depths@.len(),
    ensures
        r@.map_values(|s: String| s@) == node_paths(*graph, walk_back(*graph, depth_view(depths@), target as int).reverse()),
{
    let ghost d = depth_view(depths@);
    let edges = graph_raw_edges(graph);
    let mut rev: Vec<String> = Vec::new();
    let mut current: usize = target;
    let ghost mut walked: Seq<int> = seq![];
    assert(walked + walk_back(*graph, d, target as int) =~= walk_back(*graph, d, target as int));
    assert(rev@.map_values(|s: String| s@) =~= node_paths(*graph, walked));
    loop
        invariant_except_break
            walk_back(*graph, d, target as int) == walked + walk_back(*graph, d, current as int),
            rev@.map_values(|s: String| s@) == node_paths(*graph, walked),
        invariant
            depths@.len() == graph_nodes(*graph).len(),
            d == depth_view(depths@),
            edges@ == graph_edges(*graph),
            edges_within(edges@, graph_nodes(*graph).len()),
            current < depths@.len(),
        ensures
            walk_back(*graph, d, target as int) == walked,
            rev@.map_values(|s: String| s@) == node_paths(*graph, walked),
        decreases (match d[current as int] {
            Some(x) => x,
            None => 0,
        }),
    {
        let ghost wb = walk_back(*graph, d, current as int);
        let ghost before = rev@.map_values(|s: String| s@);
        let rp = graph_node(graph, current).relative_path.clone();
        rev.push(rp);
        assert(rev@.map_values(|s: String| s@) =~= before.push(rp@));
        assert(rev@.map_values(|s: String| s@) =~= node_paths(*graph, walked.push(current as int)));
        let cd = match depths[current] {
            Some(x) => x,
            None => {
                assert(wb =~= seq![current as int]);
                assert(walked + wb =~= walked.push(current as int));
                proof { walked = walked.push(current as int); }
                break;
            },
        };
        if cd == 0 {
            assert(wb =~= seq![current as int]);
            assert(walked + wb =~= walked.push(current as int));
            proof { walked = walked.push(current as int); }
            break;
        }
        let ins = graph_edges_directed(graph, current, true);
        let ghost want = (cd - 1) as nat;
        let mut k: usize = 0;
        let mut parent: Option<usize> = None;
        while k < ins.len()
            invariant_except_break
                parent is None,
                first_parent(edges@, ins@, d, want, 0) == first_parent(edges@, ins@, d, want, k as int),
            invariant
                edges@ == graph_edges(*graph),
                edges_within(edges@, graph_nodes(*graph).len()),
                depths@.len() == graph_nodes(*graph).len(),
                d == depth_view(depths@),
                ins@ == incident(graph_edges(*graph), current as int, true),
                k <= ins@.len(),
                want == cd - 1,
            ensures
                parent matches Some(p) ==> first_parent(edges@, ins@, d, want, 0) == Some(k as int) && k < ins@.len() && p == edges@[ins@[k as int] as int].0,
                parent is None ==> first_parent(edges@, ins@, d, want, 0) is None,
            decreases ins.len() - k,
        {
            proof {
                lemma_incident_bound(edges@, current as int, true, edges@.len() as int, k as int);
            }
            let src = edges[ins[k]].0;
            let matches = match depths[src] {
                Some(y) => y == cd - 1,
                None => false,
            };
            if matches {
                parent = Some(src);
                break;
            }
            k += 1;
        }
        match parent {
            Some(p) => {
                proof {
                    lemma_first_parent(edges@, ins@, d, want, 0);
                    lemma_incident_bound(edges@, current as int, true, edges@.len() as int, k as int);
                    assert(edges@[ins@[k as int] as int].0 < graph_nodes(*graph).len());
                }
                assert(wb == seq![current as int] + walk_back(*graph, d, p as int));
                assert(walked + wb =~= walked.push(current as int) + walk_back(*graph, d, p as int));
                proof { walked = walked.push(current as int); }
                current = p;
            },
            None => {
                assert(wb =~= seq![current as int]);
                assert(walked + wb =~= walked.push(current as int));
                proof { walked = walked.push(current as int); }
                break;
            },
        }
    }
    let r = reversed_strings(&rev);
    assert(node_paths(*graph, walked.reverse()) =~= node_paths(*graph, walked).reverse());
    r
}

/// Find the path from an entry point to the deepest node. Every depth reached must fit in
/// a `usize`.
pub fn find_deepest_path(graph: &DepGraph) -> (r: Vec<String>)
    requires
        bounded(depths_of(*graph), usize::MAX as int),
    ensures
        r@.map_values(|s: String| s@) == deepest_path_of(*graph),
{
    let depths = calculate_depths(graph);
    match deepest_node(&depths) {
        Some(t) => reconstruct_path_to_node(graph, t, &depths),
        None => {
            let r: Vec<String> = Vec::new();
            assert(r@.map_values(|s: String| s@) =~= seq![]);
            r
        },
    }
}

} // verus!

verus! {

// ---------------------------------------------------------------------------
// Cycle paths
// ---------------------------------------------------------------------------

/// An edge between named files: (from, to, line).
pub type NamedEdge = (Seq<char>, Seq<char>, usize);

/// The views of a list of (from, to, line) edges.
pub open spec fn triple_views(v: Seq<(String, String, usize)>) -> Seq<NamedEdge> {
    v.map_values(|t: (String, String, usize)| (t.0@, t.1@, t.2))
}

/// The targets of a list of edges.
pub open spec fn targets(edges: Seq<NamedEdge>) -> Seq<Seq<char>> {
    edges.map_values(|e: NamedEdge| e.1)
}

/// The targets of the edges leaving `x`, in edge order.
pub open spec fn neighbors(edges: Seq<NamedEdge>, x: Seq<char>) -> Seq<Seq<char>>
    decreases edges.len(),
{
    if edges.len() == 0 {
        seq![]
    } else {
        let r = neighbors(edges.drop_last(), x);
        if edges.last().0 == x {
            r.push(edges.last().1)
        } else {
            r
        }
    }
}

/// The first element of `ns` that is not in `path`.
pub open spec fn first_unvisited(ns: Seq<Seq<char>>, path: Seq<Seq<char>>) -> Option<Seq<char>>
    decreases ns.len(),
{
    if ns.len() == 0 {
        None
    } else if !path.contains(ns[0]) {
        Some(ns[0])
    } else {
        first_unvisited(ns.drop_first(), path)
    }
}

/// The number of elements of `l` that are not in `path`.
pub open spec fn count_not_in(l: Seq<Seq<char>>, path: Seq<Seq<char>>) -> nat
    decreases l.len(),
{
    if l.len() == 0 {
        0
    } else {
        count_not_in(l.drop_last(), path) + if path.contains(l.last()) {
            0nat
        } else {
            1nat
        }
    }
}

pub proof fn lemma_count_not_in(l: Seq<Seq<char>>, path: Seq<Seq<char>>, x: Seq<char>)
    ensures
        count_not_in(l, path.push(x)) <= count_not_in(l, path),
        l.contains(x) && !path.contains(x) ==> count_not_in(l, path.push(x)) < count_not_in(l, path),
    decreases l.len(),
{
    if l.len() > 0 {
        lemma_count_not_in(l.drop_last(), path, x);
        assert(path.push(x).contains(l.last()) <== path.contains(l.last())) by {
            if path.contains(l.last()) {
                let k = choose|k: int| 0 <= k < path.len() && path[k] == l.last();
                assert(path.push(x)[k] == l.last());
            }
        }
        if l.contains(x) && !path.contains(x) {
            if l.last() == x {
                assert(path.push(x)[path.len() as int] == x);
            } else {
                let k = choose|k: int| 0 <= k < l.len() && l[k] == x;
                assert(l.drop_last()[k] == x);
            }
        }
    }
}

/// From `cur`, with `path` already walked: add `cur`, then go on to its first neighbor not
/// yet on the path; stop at a node already on the path (or outside `universe`). When every
/// neighbor is on the path, the first one is added if it is not there.
pub open spec fn cycle_walk(
    edges: Seq<NamedEdge>,
    universe: Seq<Seq<char>>,
    path: Seq<Seq<char>>,
    cur: Seq<char>,
) -> Seq<Seq<char>>
    decreases count_not_in(universe, path),
{
    if path.contains(cur) || !universe.contains(cur) {
        path
    } else {
        let p2 = path.push(cur);
        let ns = neighbors(edges, cur);
        match first_unvisited(ns, p2) {
            Some(nx) => {
                proof {
                    lemma_count_not_in(universe, path, cur);
                }
                cycle_walk(edges, universe, p2, nx)
            },
            None => if ns.len() > 0 && !p2.contains(ns[0]) {
                p2.push(ns[0])
            } else {
                p2
            },
        }
    }
}

/// The ordered cycle path through `nodes` along `edges`: the walk from the first node; the
/// nodes in their original order when the walk does not reach them all.
pub open spec fn cycle_path(edges: Seq<NamedEdge>, nodes: Seq<Seq<char>>) -> Seq<Seq<char>> {
    if nodes.len() == 0 {
        seq![]
    } else {
        let universe = seq![nodes[0]] + targets(edges);
        let p = cycle_walk(edges, universe, seq![], nodes[0]);
        if p.len() < nodes.len() {
            nodes
        } else {
            p
        }
    }
}

proof fn lemma_neighbors_are_targets(edges: Seq<NamedEdge>, x: Seq<char>, y: Seq<char>)
    requires
        neighbors(edges, x).contains(y),
    ensures
        targets(edges).contains(y),
    decreases edges.len(),
{
    let r = neighbors(edges.drop_last(), x);
    if r.contains(y) {
        lemma_neighbors_are_targets(edges.drop_last(), x, y);
        let k = choose|k: int| 0 <= k < edges.drop_last().len() && targets(edges.drop_last())[k] == y;
        assert(targets(edges)[k] == y);
    } else {
        assert(targets(edges)[edges.len() - 1] == y);
    }
}

proof fn lemma_first_unvisited_push(ns: Seq<Seq<char>>, path: Seq<Seq<char>>, y: Seq<char>)
    ensures
        first_unvisited(ns.push(y), path) == match first_unvisited(ns, path) {
            Some(z) => Some(z),
            None => if !path.contains(y) {
                Some(y)
            } else {
                None
            },
        },
    decreases ns.len(),
{
    if ns.len() > 0 {
        lemma_first_unvisited_push(ns.drop_first(), path, y);
        assert(ns.push(y).drop_first() =~= ns.drop_first().push(y));
    } else {
        assert(ns.push(y).drop_first() =~= ns);
    }
}

proof fn lemma_first_unvisited_in(ns: Seq<Seq<char>>, path: Seq<Seq<char>>)
    ensures
        first_unvisited(ns, path) matches Some(z) ==> ns.contains(z) && !path.contains(z),
    decreases ns.len(),
{
    if ns.len() > 0 {
        lemma_first_unvisited_in(ns.drop_first(), path);
        if let Some(z) = first_unvisited(ns.drop_first(), path) {
            if path.contains(ns[0]) {
                let k = choose|k: int| 0 <= k < ns.drop_first().len() && ns.drop_first()[k] == z;
                assert(ns[k + 1] == z);
            }
        }
        if !path.contains(ns[0]) {
            assert(ns[0] == ns[0]);
        }
    }
}

proof fn lemma_neighbors_append(a: Seq<NamedEdge>, b: Seq<NamedEdge>, x: Seq<char>)
    ensures
        neighbors(a + b, x) == neighbors(a, x) + neighbors(b, x),
    decreases b.len(),
{
    if b.len() == 0 {
        assert(a + b =~= a);
        assert(neighbors(a, x) + neighbors(b, x) =~= neighbors(a, x));
    } else {
        lemma_neighbors_append(a, b.drop_last(), x);
        assert((a + b).drop_last() =~= a + b.drop_last());
        assert((a + b).last() == b.last());
        if b.last().0 == x {
            assert(neighbors(a, x) + neighbors(b.drop_last(), x).push(b.last().1) =~= (neighbors(a, x)
                + neighbors(b.drop_last(), x)).push(b.last().1));
        }
    }
}

proof fn lemma_first_unvisited_append(ns1: Seq<Seq<char>>, ns2: Seq<Seq<char>>, path: Seq<Seq<char>>)
    requires
        first_unvisited(ns1, path) is Some,
    ensures
        first_unvisited(ns1 + ns2, path) == first_unvisited(ns1, path),
    decreases ns1.len(),
{
    if ns1.len() > 0 {
        assert((ns1 + ns2)[0] == ns1[0]);
        if path.contains(ns1[0]) {
            assert((ns1 + ns2).drop_first() =~= ns1.drop_first() + ns2);
            lemma_first_unvisited_append(ns1.drop_first(), ns2, path);
        }
    }
}

/// Whether `x` is one of the strings in `v`.
fn contains_string(v: &Vec<String>, x: &String) -> (b: bool)
    ensures
        b == v@.map_values(|s: String| s@).contains(x@),
{
    let ghost vv = v@.map_values(|s: String| s@);
    let mut i: usize = 0;
    while i < v.len()
        invariant
            i <= v@.len(),
            vv == v@.map_values(|s: String| s@),
            forall|j: int| 0 <= j < i ==> vv[j] != x@,
        decreases v.len() - i,
    {
        if v[i] == *x {
            assert(vv[i as int] == x@);
            return true;
        }
        i += 1;
    }
    false
}

/// Each file of `p` but the last is followed by one of its neighbors along `edges`.
pub open spec fn along_edges(edges: Seq<NamedEdge>, p: Seq<Seq<char>>) -> bool {
    forall|i: int| 0 <= i < p.len() - 1 ==> neighbors(edges, #[trigger] p[i]).contains(p[i + 1])
}

/// No file occurs twice in `p`.
pub open spec fn no_repeats(p: Seq<Seq<char>>) -> bool {
    forall|i: int, j: int| 0 <= i < j < p.len() ==> #[trigger] p[i] != #[trigger] p[j]
}

/// Every file of `p` is in `u`.
pub open spec fn all_in(p: Seq<Seq<char>>, u: Seq<Seq<char>>) -> bool {
    forall|i: int| 0 <= i < p.len() ==> u.contains(#[trigger] p[i])
}

proof fn lemma_first_unvisited(ns: Seq<Seq<char>>, p: Seq<Seq<char>>)
    ensures
        first_unvisited(ns, p) matches Some(x) ==> ns.contains(x) && !p.contains(x),
    decreases ns.len(),
{
    if ns.len() > 0 && p.contains(ns[0]) {
        lemma_first_unvisited(ns.drop_first(), p);
        match first_unvisited(ns.drop_first(), p) {
            Some(x) => {
                let k = choose|k: int| 0 <= k < ns.drop_first().len() && ns.drop_first()[k] == x;
                assert(ns[k + 1] == x);
            },
            None => {},
        }
    } else if ns.len() > 0 {
        assert(ns[0] == ns[0]);
    }
}

proof fn lemma_walk_shape(edges: Seq<NamedEdge>, universe: Seq<Seq<char>>, path: Seq<Seq<char>>, cur: Seq<char>)
    requires
        along_edges(edges, path),
        path.len() > 0 ==> neighbors(edges, path.last()).contains(cur),
        no_repeats(path),
        all_in(path, universe),
        forall|t: Seq<char>| targets(edges).contains(t) ==> universe.contains(t),
    ensures
        along_edges(edges, cycle_walk(edges, universe, path, cur)),
        no_repeats(cycle_walk(edges, universe, path, cur)),
        all_in(cycle_walk(edges, universe, path, cur), universe),
        path.len() <= cycle_walk(edges, universe, path, cur).len(),
        cycle_walk(edges, universe, path, cur).take(path.len() as int) == path,
        !path.contains(cur) && universe.contains(cur) ==> path.len() < cycle_walk(edges, universe, path, cur).len()
            && cycle_walk(edges, universe, path, cur)[path.len() as int] == cur,
    decreases count_not_in(universe, path),
{
    let r = cycle_walk(edges, universe, path, cur);
    if path.contains(cur) || !universe.contains(cur) {
        assert(r.take(path.len() as int) =~= path);
    } else {
        let p2 = path.push(cur);
        let ns = neighbors(edges, cur);
        assert(along_edges(edges, p2)) by {
            assert forall|i: int| 0 <= i < p2.len() - 1 implies neighbors(edges, #[trigger] p2[i]).contains(p2[i + 1]) by {
                if i < path.len() - 1 {
                    assert(p2[i] == path[i] && p2[i + 1] == path[i + 1]);
                } else {
                    assert(p2[i] == path.last());
                }
            }
        }
        assert(no_repeats(p2)) by {
            assert forall|i: int, j: int| 0 <= i < j < p2.len() implies #[trigger] p2[i] != #[trigger] p2[j] by {
                if j == path.len() {
                    assert(p2[i] == path[i]);
                    assert(path.contains(path[i]));
                } else {
                    assert(p2[i] == path[i] && p2[j] == path[j]);
                }
            }
        }
        assert(all_in(p2, universe)) by {
            assert forall|i: int| 0 <= i < p2.len() implies universe.contains(#[trigger] p2[i]) by {
                if i < path.len() {
                    assert(p2[i] == path[i]);
                }
            }
        }
        lemma_first_unvisited(ns, p2);
        match first_unvisited(ns, p2) {
            Some(nx) => {
                lemma_count_not_in(universe, path, cur);
                assert(p2.last() == cur);
                lemma_walk_shape(edges, universe, p2, nx);
                let r2 = cycle_walk(edges, universe, p2, nx);
                assert(r2.take(path.len() as int) =~= r2.take(p2.len() as int).take(path.len() as int));
                assert(p2.take(path.len() as int) =~= path);
                assert(r2.take(p2.len() as int)[path.len() as int] == r2[path.len() as int]);
            },
            None => {
                if ns.len() > 0 && !p2.contains(ns[0]) {
                    let p3 = p2.push(ns[0]);
                    assert(ns.contains(ns[0]));
                    lemma_neighbors_are_targets(edges, cur, ns[0]);
                    assert forall|i: int| 0 <= i < p3.len() - 1 implies neighbors(edges, #[trigger] p3[i]).contains(p3[i + 1]) by {
                        if i < p2.len() - 1 {
                            assert(p3[i] == p2[i] && p3[i + 1] == p2[i + 1]);
                        } else {
                            assert(p3[i] == cur);
                        }
                    }
                    assert forall|i: int, j: int| 0 <= i < j < p3.len() implies #[trigger] p3[i] != #[trigger] p3[j] by {
                        if j == p2.len() {
                            assert(p3[i] == p2[i]);
                            assert(p2.contains(p2[i]));
                        } else {
                            assert(p3[i] == p2[i] && p3[j] == p2[j]);
                        }
                    }
                    assert forall|i: int| 0 <= i < p3.len() implies universe.contains(#[trigger] p3[i]) by {
                        if i < p2.len() {
                            assert(p3[i] == p2[i]);
                        }
                    }
                    assert(p3.take(path.len() as int) =~= path);
                } else {
                    assert(p2.take(path.len() as int) =~= path);
                }
            },
        }
    }
}

/// The ordered cycle path is either the nodes as given (when the walk falls short) or a
/// walk along the edges: it starts at the first node, each file is followed by one it
/// imports, no file occurs twice, each file is the first node or the target of an edge,
/// and it holds at least as many files as there are nodes.
pub proof fn law_cycle_path_is_a_walk(edges: Seq<NamedEdge>, nodes: Seq<Seq<char>>)
    ensures
        ({
            let r = cycle_path(edges, nodes);
            ||| r == nodes
            ||| {
                &&& nodes.len() > 0
                &&& r[0] == nodes[0]
                &&& along_edges(edges, r)
                &&& no_repeats(r)
                &&& all_in(r, seq![nodes[0]] + targets(edges))
                &&& r.len() >= nodes.len()
            }
        }),
{
    if nodes.len() > 0 {
        let universe = seq![nodes[0]] + targets(edges);
        assert forall|t: Seq<char>| targets(edges).contains(t) implies universe.contains(t) by {
            let k = choose|k: int| 0 <= k < targets(edges).len() && targets(edges)[k] == t;
            assert(universe[k + 1] == t);
        }
        assert(universe[0] == nodes[0]);
        lemma_walk_shape(edges, universe, seq![], nodes[0]);
        let p = cycle_walk(edges, universe, seq![], nodes[0]);
        if p.len() >= nodes.len() {
            assert(!seq![].contains(nodes[0]));
            assert(seq![].push(nodes[0]) =~= seq![nodes[0]]);
            assert(p[0] == nodes[0]);
        }
    } else {
        assert(cycle_path(edges, nodes) =~= nodes);
    }
}

/// On distinct nodes whose edges run among them, the ordered cycle path is a
/// permutation of the nodes: as many files, none twice, and the same ones.
pub proof fn law_cycle_path_is_a_permutation(edges: Seq<NamedEdge>, nodes: Seq<Seq<char>>)
    requires
        nodes.no_duplicates(),
        forall|k: int| 0 <= k < edges.len() ==> nodes.contains(#[trigger] edges[k].0) && nodes.contains(edges[k].1),
    ensures
        cycle_path(edges, nodes).len() == nodes.len(),
        cycle_path(edges, nodes).no_duplicates(),
        cycle_path(edges, nodes).to_set() == nodes.to_set(),
{
    broadcast use vstd::seq_lib::seq_to_set_is_finite;
    law_cycle_path_is_a_walk(edges, nodes);
    let r = cycle_path(edges, nodes);
    if r != nodes {
        assert(r.no_duplicates()) by {
            assert forall|i: int, j: int| 0 <= i < r.len() && 0 <= j < r.len() && i != j implies r[i] != r[j] by {
                if i < j {
                    assert(r[i] != r[j]);
                } else {
                    assert(r[j] != r[i]);
                }
            }
        }
        let u = seq![nodes[0]] + targets(edges);
        assert(r.to_set().subset_of(nodes.to_set())) by {
            assert forall|x: Seq<char>| r.to_set().contains(x) implies nodes.to_set().contains(x) by {
                let i = choose|i: int| 0 <= i < r.len() && r[i] == x;
                assert(u.contains(r[i]));
                let q = choose|q: int| 0 <= q < u.len() && u[q] == x;
                if q == 0 {
                    assert(nodes.contains(nodes[0]));
                } else {
                    assert(u[q] == edges[q - 1].1);
                    assert(nodes.contains(edges[q - 1].0));
                }
            }
        }
        r.unique_seq_to_set();
        nodes.unique_seq_to_set();
        vstd::set_lib::lemma_len_subset(r.to_set(), nodes.to_set());
        vstd::set_lib::lemma_subset_equality(r.to_set(), nodes.to_set());
    }
}

/// Reconstruct an ordered cycle path from edges.
///
/// Starting from the first node, follows edges to construct A -> B -> C, preferring
/// neighbors not yet on the path. When the walk does not reach every node, the nodes are
/// returned in their original order.
pub fn reconstruct_cycle_path(edges: &Vec<(String, String, usize)>, nodes: &Vec<String>) -> (r: Vec<String>)
    ensures
        r@.map_values(|s: String| s@) == cycle_path(triple_views(edges@), nodes@.map_values(|s: String| s@)),
{
    let ghost ev = triple_views(edges@);
    let ghost nv = nodes@.map_values(|s: String| s@);
    if nodes.len() == 0 {
        let r: Vec<String> = Vec::new();
        assert(r@.map_values(|s: String| s@) =~= seq![]);
        return r;
    }
    let ghost universe = seq![nv[0]] + targets(ev);
    let mut path: Vec<String> = Vec::new();
    let mut current: String = nodes[0].clone();
    assert(universe[0] == nv[0]);
    assert(path@.map_values(|s: String| s@) =~= seq![]);
    loop
        invariant_except_break
            universe.contains(current@),
            cycle_walk(ev, universe, seq![], nv[0]) == cycle_walk(ev, universe, path@.map_values(|s: String| s@), current@),
        invariant
            ev == triple_views(edges@),
            nv == nodes@.map_values(|s: String| s@),
            nv.len() > 0,
            universe == seq![nv[0]] + targets(ev),
        ensures
            cycle_walk(ev, universe, seq![], nv[0]) == path@.map_values(|s: String| s@),
        decreases count_not_in(universe, path@.map_values(|s: String| s@)),
    {
        let ghost pv = path@.map_values(|s: String| s@);
        if contains_string(&path, &current) {
            break;
        }
        path.push(current.clone());
        let ghost p2 = path@.map_values(|s: String| s@);
        assert(p2 =~= pv.push(current@));
        let mut j: usize = 0;
        let mut first: Option<String> = None;
        let mut next: Option<String> = None;
        assert(ev.take(0) =~= seq![]);
        assert(ev.take(edges@.len() as int) =~= ev);
        while j < edges.len()
            invariant_except_break
                next is None,
                first_unvisited(neighbors(ev.take(j as int), current@), p2) is None,
            invariant
                ev == triple_views(edges@),
                ev.take(edges@.len() as int) == ev,
                j <= edges@.len(),
                p2 == path@.map_values(|s: String| s@),
                next is None ==> (first matches Some(f) ==> neighbors(ev.take(j as int), current@).len() > 0 && neighbors(ev.take(j as int), current@)[0] == f@),
                next is None ==> (first is None ==> neighbors(ev.take(j as int), current@).len() == 0),
            ensures
                next matches Some(nx) ==> first_unvisited(neighbors(ev, current@), p2) == Some(nx@),
                next is None ==> first_unvisited(neighbors(ev, current@), p2) is None,
                next is None ==> (first matches Some(f) ==> neighbors(ev, current@).len() > 0 && neighbors(ev, current@)[0] == f@),
                next is None ==> (first is None ==> neighbors(ev, current@).len() == 0),
            decreases edges.len() - j,
        {
            let ghost ns = neighbors(ev.take(j as int), current@);
            assert(ev.take(j + 1).drop_last() =~= ev.take(j as int));
            assert(ev.take(j + 1).last() == ev[j as int]);
            if edges[j].0 == current {
                let y = &edges[j].1;
                assert(neighbors(ev.take(j + 1), current@) == ns.push(y@));
                if first.is_none() {
                    first = Some(y.clone());
                }
                assert(first matches Some(f) ==> ns.push(y@)[0] == f@);
                proof {
                    lemma_first_unvisited_push(ns, p2, y@);
                }
                if !contains_string(&path, y) {
                    next = Some(y.clone());
                    proof {
                        lemma_neighbors_append(ev.take(j + 1), ev.skip(j + 1), current@);
                        assert(ev.take(j + 1) + ev.skip(j + 1) =~= ev);
                        lemma_first_unvisited_append(ns.push(y@), neighbors(ev.skip(j + 1), current@), p2);
                    }
                    break;
                }
            } else {
                assert(neighbors(ev.take(j + 1), current@) == ns);
            }
            j += 1;
        }
        proof {
            if next is None {
                assert(ev.take(edges@.len() as int) =~= ev);
            }
        }
        match next {
            Some(nx) => {
                proof {
                    lemma_first_unvisited_in(neighbors(ev, current@), p2);
                    lemma_neighbors_are_targets(ev, current@, nx@);
                    let k = choose|k: int| 0 <= k < targets(ev).len() && #[trigger] targets(ev)[k] == nx@;
                    assert(universe[k + 1] == nx@);
                    lemma_count_not_in(universe, pv, current@);
                }
                current = nx;
            },
            None => {
                match first {
                    Some(f) => {
                        if !contains_string(&path, &f) {
                            path.push(f);
                            assert(path@.map_values(|s: String| s@) =~= p2.push(neighbors(ev, current@)[0]));
                        }
                    },
                    None => {},
                }
                break;
            },
        }
    }
    let r = if path.len() < nodes.len() {
        crate::text::clone_strings(nodes)
    } else {
        path
    };
    r
}

} // verus!

verus! {

// ---------------------------------------------------------------------------
// Cycles
// ---------------------------------------------------------------------------

/// The text of a cycle: its ordered file paths and its edges.
pub struct CycleView {
    pub nodes: Seq<Seq<char>>,
    pub edges: Seq<NamedEdge>,
}

impl View for Cycle {
    type V = CycleView;

    open spec fn view(&self) -> CycleView {
        CycleView { nodes: self.nodes@.map_values(|s: String| s@), edges: triple_views(self.edges@) }
    }
}

/// The views of a list of cycles.
pub open spec fn cycle_views(v: Seq<Cycle>) -> Seq<CycleView> {
    v.map_values(|c: Cycle| c@)
}

/// The views of a list of cycle edges.
pub open spec fn cycle_edge_views(v: Seq<CycleEdge>) -> Seq<NamedEdge> {
    v.map_values(|c: CycleEdge| (c.from@, c.to@, c.line))
}

/// The named edges among `outs[0..j]` whose target is in `scc`.
pub open spec fn scc_out_edges(g: DepGraph, scc: Seq<usize>, outs: Seq<usize>, j: int) -> Seq<NamedEdge>
    decreases j,
{
    if j <= 0 {
        seq![]
    } else {
        let rest = scc_out_edges(g, scc, outs, j - 1);
        let e = graph_edges(g)[outs[j - 1] as int];
        if scc.contains(e.1) {
            rest.push(
                (
                    graph_nodes(g)[e.0 as int].relative_path@,
                    graph_nodes(g)[e.1 as int].relative_path@,
                    e.2.line,
                ),
            )
        } else {
            rest
        }
    }
}

/// The edges within `scc` that leave its first `k` nodes: node by node, each node's
/// outgoing edges in `edges_directed` order.
pub open spec fn scc_edges_upto(g: DepGraph, scc: Seq<usize>, k: int) -> Seq<NamedEdge>
    decreases k,
{
    if k <= 0 {
        seq![]
    } else {
        let outs = incident(graph_edges(g), scc[k - 1] as int, false);
        scc_edges_upto(g, scc, k - 1) + scc_out_edges(g, scc, outs, outs.len() as int)
    }
}

/// The edges within a strongly connected component.
pub open spec fn scc_edges(g: DepGraph, scc: Seq<usize>) -> Seq<NamedEdge> {
    scc_edges_upto(g, scc, scc.len() as int)
}

/// The relative paths of a list of node indices.
pub open spec fn index_paths(g: DepGraph, ns: Seq<usize>) -> Seq<Seq<char>> {
    ns.map_values(|i: usize| graph_nodes(g)[i as int].relative_path@)
}

/// The cycle of a strongly connected component: its edges, and its nodes ordered along them.
pub open spec fn cycle_of(g: DepGraph, scc: Seq<usize>) -> CycleView {
    CycleView { nodes: cycle_path(scc_edges(g, scc), index_paths(g, scc)), edges: scc_edges(g, scc) }
}

/// Graph edge `e` named by the relative paths of its ends, with its line.
pub open spec fn named_edge(g: DepGraph, e: int) -> NamedEdge {
    let x = graph_edges(g)[e];
    (graph_nodes(g)[x.0 as int].relative_path@, graph_nodes(g)[x.1 as int].relative_path@, x.2.line)
}

/// Graph edge `e` runs between two nodes of `scc`.
pub open spec fn edge_within(g: DepGraph, scc: Seq<usize>, e: int) -> bool {
    scc.contains(graph_edges(g)[e].0) && scc.contains(graph_edges(g)[e].1)
}

/// The number of components among `comps[0..i]` with two or more nodes.
pub open spec fn big_components(comps: Seq<Seq<usize>>, i: int) -> nat
    decreases i,
{
    if i <= 0 {
        0
    } else {
        big_components(comps, i - 1) + if comps[i - 1].len() > 1 { 1nat } else { 0nat }
    }
}

proof fn lemma_incident_members(edges: Seq<(usize, usize, Import)>, a: int, upto: int, e: int)
    requires
        0 <= upto <= edges.len(),
        0 <= e < edges.len(),
        edges.len() <= usize::MAX,
    ensures
        e < upto && edges[e].0 == a ==> crate::graph::incident_from(edges, a, false, upto).contains(e as usize),
        crate::graph::incident_from(edges, a, false, upto).contains(e as usize) ==> e < upto && edges[e].0 == a,
    decreases upto,
{
    if upto > 0 {
        lemma_incident_members(edges, a, upto - 1, e);
        let rest = crate::graph::incident_from(edges, a, false, upto - 1);
        if edges[upto - 1].0 == a {
            let full = seq![(upto - 1) as usize] + rest;
            assert(full[0] == (upto - 1) as usize);
            if rest.contains(e as usize) {
                let q = choose|q: int| 0 <= q < rest.len() && rest[q] == e as usize;
                assert(full[q + 1] == e as usize);
            }
            if full.contains(e as usize) && e != upto - 1 {
                let q = choose|q: int| 0 <= q < full.len() && full[q] == e as usize;
                assert(q != 0);
                assert(rest[q - 1] == e as usize);
            }
        }
    }
}

proof fn lemma_scc_out_edges(g: DepGraph, scc: Seq<usize>, v: int, j: int, x: NamedEdge)
    requires
        graph_edges(g).len() <= usize::MAX,
        0 <= j <= incident(graph_edges(g), v, false).len(),
        scc.contains(v as usize),
    ensures
        scc_out_edges(g, scc, incident(graph_edges(g), v, false), j).contains(x) ==> exists|e: int|
            0 <= e < graph_edges(g).len() && edge_within(g, scc, e) && #[trigger] named_edge(g, e) == x,
    decreases j,
{
    let outs = incident(graph_edges(g), v, false);
    if j > 0 {
        lemma_scc_out_edges(g, scc, v, j - 1, x);
        let rest = scc_out_edges(g, scc, outs, j - 1);
        let e = outs[j - 1] as int;
        assert(outs.contains(outs[j - 1]));
        lemma_incident_bound(graph_edges(g), v, false, graph_edges(g).len() as int, j - 1);
        lemma_incident_members(graph_edges(g), v, graph_edges(g).len() as int, e);
        if scc.contains(graph_edges(g)[e].1) {
            let all = rest.push(named_edge(g, e));
            if all.contains(x) && !rest.contains(x) {
                let q = choose|q: int| 0 <= q < all.len() && all[q] == x;
                if q < rest.len() {
                    assert(rest[q] == x);
                }
                assert(named_edge(g, e) == x);
                assert(edge_within(g, scc, e));
            }
        }
    }
}

proof fn lemma_scc_out_edges_complete(g: DepGraph, scc: Seq<usize>, v: int, j: int, k: int)
    requires
        0 <= k < j <= incident(graph_edges(g), v, false).len(),
        scc.contains(graph_edges(g)[incident(graph_edges(g), v, false)[k] as int].1),
        incident(graph_edges(g), v, false)[k] < graph_edges(g).len(),
    ensures
        scc_out_edges(g, scc, incident(graph_edges(g), v, false), j).contains(
            named_edge(g, incident(graph_edges(g), v, false)[k] as int),
        ),
    decreases j,
{
    let outs = incident(graph_edges(g), v, false);
    let rest = scc_out_edges(g, scc, outs, j - 1);
    if k < j - 1 {
        lemma_scc_out_edges_complete(g, scc, v, j - 1, k);
        let q = choose|q: int| 0 <= q < rest.len() && rest[q] == named_edge(g, outs[k] as int);
        if scc.contains(graph_edges(g)[outs[j - 1] as int].1) {
            assert(rest.push(named_edge(g, outs[j - 1] as int))[q] == named_edge(g, outs[k] as int));
        }
    } else {
        assert(rest.push(named_edge(g, outs[k] as int))[rest.len() as int] == named_edge(g, outs[k] as int));
    }
}

proof fn lemma_scc_edges_upto(g: DepGraph, scc: Seq<usize>, k: int, x: NamedEdge)
    requires
        graph_edges(g).len() <= usize::MAX,
        0 <= k <= scc.len(),
    ensures
        scc_edges_upto(g, scc, k).contains(x) ==> exists|e: int|
            0 <= e < graph_edges(g).len() && edge_within(g, scc, e) && #[trigger] named_edge(g, e) == x,
    decreases k,
{
    if k > 0 {
        lemma_scc_edges_upto(g, scc, k - 1, x);
        let v = scc[k - 1] as int;
        let outs = incident(graph_edges(g), v, false);
        let a = scc_edges_upto(g, scc, k - 1);
        let b = scc_out_edges(g, scc, outs, outs.len() as int);
        assert(scc.contains(scc[k - 1]));
        lemma_scc_out_edges(g, scc, v, outs.len() as int, x);
        if (a + b).contains(x) {
            let q = choose|q: int| 0 <= q < (a + b).len() && (a + b)[q] == x;
            if q < a.len() {
                assert(a[q] == x);
            } else {
                assert(b[q - a.len()] == x);
            }
        }
    }
}

proof fn lemma_scc_edges_complete(g: DepGraph, scc: Seq<usize>, k: int, m: int, e: int)
    requires
        graph_edges(g).len() <= usize::MAX,
        0 <= m < k <= scc.len(),
        0 <= e < graph_edges(g).len(),
        graph_edges(g)[e].0 == scc[m],
        scc.contains(graph_edges(g)[e].1),
    ensures
        scc_edges_upto(g, scc, k).contains(named_edge(g, e)),
    decreases k,
{
    let a = scc_edges_upto(g, scc, k - 1);
    let v = scc[k - 1] as int;
    let outs = incident(graph_edges(g), v, false);
    let b = scc_out_edges(g, scc, outs, outs.len() as int);
    if m < k - 1 {
        lemma_scc_edges_complete(g, scc, k - 1, m, e);
        let q = choose|q: int| 0 <= q < a.len() && a[q] == named_edge(g, e);
        assert((a + b)[q] == named_edge(g, e));
    } else {
        lemma_incident_members(graph_edges(g), v, graph_edges(g).len() as int, e);
        let q = choose|q: int| 0 <= q < outs.len() && outs[q] == e as usize;
        assert(outs[q] as int == e);
        lemma_scc_out_edges_complete(g, scc, v, outs.len() as int, q);
        let r = choose|r: int| 0 <= r < b.len() && b[r] == named_edge(g, e);
        assert((a + b)[a.len() + r] == named_edge(g, e));
    }
}

/// The edges of the cycle of a component are exactly the graph's edges between two of its
/// nodes, each named by the paths of its ends and its line.
pub proof fn law_cycle_edges_are_the_component_edges(g: DepGraph, scc: Seq<usize>)
    requires
        graph_edges(g).len() <= usize::MAX,
    ensures
        forall|x: NamedEdge| cycle_of(g, scc).edges.contains(x) ==> exists|e: int|
            0 <= e < graph_edges(g).len() && edge_within(g, scc, e) && #[trigger] named_edge(g, e) == x,
        forall|e: int| 0 <= e < graph_edges(g).len() && edge_within(g, scc, e) ==> cycle_of(g, scc).edges.contains(
            #[trigger] named_edge(g, e),
        ),
{
    assert forall|x: NamedEdge| cycle_of(g, scc).edges.contains(x) implies exists|e: int|
        0 <= e < graph_edges(g).len() && edge_within(g, scc, e) && #[trigger] named_edge(g, e) == x by {
        lemma_scc_edges_upto(g, scc, scc.len() as int, x);
    }
    assert forall|e: int| 0 <= e < graph_edges(g).len() && edge_within(g, scc, e) implies cycle_of(g, scc).edges.contains(
        #[trigger] named_edge(g, e),
    ) by {
        let m = choose|m: int| 0 <= m < scc.len() && scc[m] == graph_edges(g)[e].0;
        lemma_scc_edges_complete(g, scc, scc.len() as int, m, e);
    }
}

/// `find_cycles` reports one cycle for each component of two or more nodes, in order,
/// and nothing for the others.
pub proof fn law_one_cycle_per_large_component(g: DepGraph, comps: Seq<Seq<usize>>, i: int)
    requires
        0 <= i <= comps.len(),
    ensures
        cycles_upto(g, comps, i).len() == big_components(comps, i),
        forall|k: int| 0 <= k < cycles_upto(g, comps, i).len() ==> exists|c: int|
            0 <= c < i && comps[c].len() > 1 && #[trigger] cycles_upto(g, comps, i)[k] == cycle_of(g, comps[c]),
    decreases i,
{
    if i > 0 {
        law_one_cycle_per_large_component(g, comps, i - 1);
        let rest = cycles_upto(g, comps, i - 1);
        let all = cycles_upto(g, comps, i);
        assert forall|k: int| 0 <= k < all.len() implies exists|c: int|
            0 <= c < i && comps[c].len() > 1 && #[trigger] all[k] == cycle_of(g, comps[c]) by {
            if k < rest.len() {
                let c = choose|c: int| 0 <= c < i - 1 && comps[c].len() > 1 && #[trigger] rest[k] == cycle_of(g, comps[c]);
                assert(all[k] == rest[k]);
            } else {
                assert(all[k] == cycle_of(g, comps[i - 1]));
            }
        }
    }
}

/// Whether `x` is in `v`.
fn contains_index(v: &Vec<usize>, x: usize) -> (b: bool)
    ensures
        b == v@.contains(x),
{
    let mut i: usize = 0;
    while i < v.len()
        invariant
            i <= v@.len(),
            forall|j: int| 0 <= j < i ==> v@[j] != x,
        decreases v.len() - i,
    {
        if v[i] == x {
            return true;
        }
        i += 1;
    }
    false
}

/// Extract a cycle representation from a strongly connected component: the edges within
/// it and its nodes ordered along them, and the same edges as cycle edges.
fn extract_cycle_from_scc(graph: &DepGraph, scc: &Vec<usize>) -> (r: (Cycle, Vec<CycleEdge>))
    requires
        forall|k: int| 0 <= k < scc@.len() ==> #[trigger] scc@[k] < graph_nodes(*graph).len(),
    ensures
        r.0@ == cycle_of(*graph, scc@),
        cycle_edge_views(r.1@) == scc_edges(*graph, scc@),
{
    let raw = graph_raw_edges(graph);
    let mut node_paths: Vec<String> = Vec::new();
    let mut edges: Vec<(String, String, usize)> = Vec::new();
    let mut cycle_edges: Vec<CycleEdge> = Vec::new();
    let mut k: usize = 0;
    while k < scc.len()
        invariant
            forall|q: int| 0 <= q < scc@.len() ==> #[trigger] scc@[q] < graph_nodes(*graph).len(),
            raw@ == graph_edges(*graph),
            edges_within(raw@, graph_nodes(*graph).len()),
            k <= scc@.len(),
            node_paths@.map_values(|s: String| s@) == index_paths(*graph, scc@.take(k as int)),
            triple_views(edges@) == scc_edges_upto(*graph, scc@, k as int),
            cycle_edge_views(cycle_edges@) == scc_edges_upto(*graph, scc@, k as int),
        decreases scc.len() - k,
    {
        let source_idx = scc[k];
        let ghost np_before = node_paths@.map_values(|s: String| s@);
        let sp = graph_node(graph, source_idx).relative_path.clone();
        node_paths.push(sp);
        assert(node_paths@.map_values(|s: String| s@) =~= np_before.push(sp@));
        assert(scc@.take(k + 1) =~= scc@.take(k as int).push(source_idx));
        assert(index_paths(*graph, scc@.take(k + 1)) =~= index_paths(*graph, scc@.take(k as int)).push(graph_nodes(*graph)[source_idx as int].relative_path@));
        let outs = graph_edges_directed(graph, source_idx, false);
        let ghost base = scc_edges_upto(*graph, scc@, k as int);
        let mut j: usize = 0;
        while j < outs.len()
            invariant
                forall|q: int| 0 <= q < scc@.len() ==> #[trigger] scc@[q] < graph_nodes(*graph).len(),
                raw@ == graph_edges(*graph),
                edges_within(raw@, graph_nodes(*graph).len()),
                k < scc@.len(),
                source_idx == scc@[k as int],
                outs@ == incident(graph_edges(*graph), source_idx as int, false),
                j <= outs@.len(),
                base == scc_edges_upto(*graph, scc@, k as int),
                triple_views(edges@) == base + scc_out_edges(*graph, scc@, outs@, j as int),
                cycle_edge_views(cycle_edges@) == base + scc_out_edges(*graph, scc@, outs@, j as int),
            decreases outs.len() - j,
        {
            proof {
                lemma_incident_bound(raw@, source_idx as int, false, raw@.len() as int, j as int);
            }
            let (a, b, w) = raw[outs[j]];
            assert(raw@[outs@[j as int] as int] == (a, b, w));
            if contains_index(scc, b) {
                let from = graph_node(graph, a).relative_path.clone();
                let to = graph_node(graph, b).relative_path.clone();
                let ghost e_before = triple_views(edges@);
                let ghost c_before = cycle_edge_views(cycle_edges@);
                edges.push((from.clone(), to.clone(), w.line));
                cycle_edges.push(CycleEdge { from, to, line: w.line });
                assert(triple_views(edges@) =~= e_before.push((from@, to@, w.line)));
                assert(cycle_edge_views(cycle_edges@) =~= c_before.push((from@, to@, w.line)));
                assert(base + scc_out_edges(*graph, scc@, outs@, j + 1) =~= (base + scc_out_edges(*graph, scc@, outs@, j as int)).push((from@, to@, w.line)));
            } else {
                assert(scc_out_edges(*graph, scc@, outs@, j + 1) == scc_out_edges(*graph, scc@, outs@, j as int));
            }
            j += 1;
        }
        assert(scc_edges_upto(*graph, scc@, k + 1) == base + scc_out_edges(*graph, scc@, outs@, outs@.len() as int));
        k += 1;
    }
    assert(scc@.take(scc@.len() as int) =~= scc@);
    let ordered = reconstruct_cycle_path(&edges, &node_paths);
    (Cycle { nodes: ordered, edges }, cycle_edges)
}

} // verus!

verus! {

/// Result of cycle detection analysis.
#[derive(Debug, Clone)]
pub struct CycleAnalysis {
    /// All cycles found in the graph
    pub cycles: Vec<Cycle>,
    /// All edges that participate in cycles
    pub cycle_edges: Vec<CycleEdge>,
    /// Node indices that are part of at least one cycle
    pub nodes_in_cycles: Vec<usize>,
}

/// The cycles of the components `comps[0..i]` that have more than one node.
pub open spec fn cycles_upto(g: DepGraph, comps: Seq<Seq<usize>>, i: int) -> Seq<CycleView>
    decreases i,
{
    if i <= 0 {
        seq![]
    } else {
        let rest = cycles_upto(g, comps, i - 1);
        if comps[i - 1].len() > 1 {
            rest.push(cycle_of(g, comps[i - 1]))
        } else {
            rest
        }
    }
}

/// The edges of the cycles of the components `comps[0..i]`.
pub open spec fn cycle_edges_upto(g: DepGraph, comps: Seq<Seq<usize>>, i: int) -> Seq<NamedEdge>
    decreases i,
{
    if i <= 0 {
        seq![]
    } else {
        let rest = cycle_edges_upto(g, comps, i - 1);
        if comps[i - 1].len() > 1 {
            rest + scc_edges(g, comps[i - 1])
        } else {
            rest
        }
    }
}

/// The nodes of the components `comps[0..i]` that have more than one node.
pub open spec fn cycle_nodes_upto(comps: Seq<Seq<usize>>, i: int) -> Seq<usize>
    decreases i,
{
    if i <= 0 {
        seq![]
    } else {
        let rest = cycle_nodes_upto(comps, i - 1);
        if comps[i - 1].len() > 1 {
            rest + comps[i - 1]
        } else {
            rest
        }
    }
}

/// The strongly connected components of a graph, in the order `kosaraju_scc` gives them.
pub open spec fn components_of(g: DepGraph) -> Seq<Seq<usize>> {
    kosaraju_components(graph_nodes(g).len(), edge_pairs(graph_edges(g)))
}

/// Node `v` lies on a cycle: it and some other node reach each other.
pub open spec fn on_cycle(g: DepGraph, v: int) -> bool {
    exists|u: int|
        0 <= u < graph_nodes(g).len() && u != v && #[trigger] mutually_reachable(graph_edges(g), u, v)
}

proof fn lemma_cycle_nodes_upto(comps: Seq<Seq<usize>>, i: int, v: usize)
    requires
        0 <= i <= comps.len(),
    ensures
        cycle_nodes_upto(comps, i).contains(v) <==> exists|c: int, k: int|
            0 <= c < i && comps[c].len() > 1 && 0 <= k < comps[c].len() && #[trigger] comps[c][k] == v,
    decreases i,
{
    if i > 0 {
        lemma_cycle_nodes_upto(comps, i - 1, v);
        let rest = cycle_nodes_upto(comps, i - 1);
        if comps[i - 1].len() > 1 {
            let all = rest + comps[i - 1];
            if all.contains(v) {
                let q = choose|q: int| 0 <= q < all.len() && all[q] == v;
                if q >= rest.len() {
                    assert(comps[i - 1][q - rest.len()] == v);
                } else {
                    assert(rest[q] == v);
                }
            }
            if exists|c: int, k: int|
                0 <= c < i && comps[c].len() > 1 && 0 <= k < comps[c].len() && #[trigger] comps[c][k] == v {
                let (c, k) = choose|c: int, k: int|
                    0 <= c < i && comps[c].len() > 1 && 0 <= k < comps[c].len() && #[trigger] comps[c][k] == v;
                if c == i - 1 {
                    assert(all[rest.len() + k] == v);
                } else {
                    let q = choose|q: int| 0 <= q < rest.len() && rest[q] == v;
                    assert(all[q] == v);
                }
            }
        }
    }
}

proof fn lemma_cycle_membership(g: DepGraph, comps: Seq<Seq<usize>>, v: usize)
    requires
        is_scc_partition(comps, graph_nodes(g).len(), graph_edges(g)),
        v < graph_nodes(g).len(),
    ensures
        cycle_nodes_upto(comps, comps.len() as int).contains(v) <==> on_cycle(g, v as int),
{
    let n = graph_nodes(g).len();
    let edges = graph_edges(g);
    lemma_cycle_nodes_upto(comps, comps.len() as int, v);
    assert(crate::graph::in_some_comp(comps, v as int));
    let (c, k) = choose|c: int, k: int|
        0 <= c < comps.len() && 0 <= k < comps[c].len() && #[trigger] comps[c][k] == v as int;
    if cycle_nodes_upto(comps, comps.len() as int).contains(v) {
        let (c1, k1) = choose|c1: int, k1: int|
            0 <= c1 < comps.len() && comps[c1].len() > 1 && 0 <= k1 < comps[c1].len() && #[trigger] comps[c1][k1] == v;
        let k2 = if k1 == 0 { 1int } else { 0int };
        let u = comps[c1][k2];
        assert(u != v) by {
            if u == v {
                assert(comps[c1][k2] == comps[c1][k1]);
            }
        }
        assert(u < n);
        assert(mutually_reachable(edges, u as int, v as int)) by {
            assert(mutually_reachable(edges, comps[c1][k2] as int, comps[c1][k1] as int));
        }
        assert(on_cycle(g, v as int));
    }
    if on_cycle(g, v as int) {
        let u = choose|u: int| 0 <= u < n && u != v && #[trigger] mutually_reachable(edges, u, v as int);
        assert(crate::graph::in_some_comp(comps, u));
        let (cu, ku) = choose|cu: int, ku: int|
            0 <= cu < comps.len() && 0 <= ku < comps[cu].len() && #[trigger] comps[cu][ku] == u;
        if cu != c {
            assert(!mutually_reachable(edges, comps[cu][ku] as int, comps[c][k] as int));
            assert(false);
        }
        assert(ku != k);
        assert(comps[c].len() > 1);
        assert(comps[c][k] == v);
    }
}

/// Find all cycles in the dependency graph.
///
/// Uses Kosaraju's algorithm to find strongly connected components; a component with more
/// than one node is a cycle. Exactly the nodes that reach and are reached from another
/// node are reported as in a cycle.
pub fn find_cycles(graph: &DepGraph) -> (r: CycleAnalysis)
    ensures
        cycle_views(r.cycles@) == cycles_upto(*graph, components_of(*graph), components_of(*graph).len() as int),
        cycle_edge_views(r.cycle_edges@) == cycle_edges_upto(*graph, components_of(*graph), components_of(*graph).len() as int),
        r.nodes_in_cycles@ == cycle_nodes_upto(components_of(*graph), components_of(*graph).len() as int),
        forall|v: usize| v < graph_nodes(*graph).len() ==> (r.nodes_in_cycles@.contains(v) <==> on_cycle(*graph, v as int)),
{
    let sccs = graph_sccs(graph);
    let ghost comps = sccs.deep_view();
    let mut cycles: Vec<Cycle> = Vec::new();
    let mut cycle_edges: Vec<CycleEdge> = Vec::new();
    let mut nodes_in_cycles: Vec<usize> = Vec::new();
    let mut i: usize = 0;
    while i < sccs.len()
        invariant
            comps == sccs.deep_view(),
            comps == components_of(*graph),
            crate::graph::is_scc_partition(comps, graph_nodes(*graph).len(), graph_edges(*graph)),
            i <= sccs@.len(),
            cycle_views(cycles@) == cycles_upto(*graph, comps, i as int),
            cycle_edge_views(cycle_edges@) == cycle_edges_upto(*graph, comps, i as int),
            nodes_in_cycles@ == cycle_nodes_upto(comps, i as int),
        decreases sccs.len() - i,
    {
        let scc = &sccs[i];
        assert(scc@ == comps[i as int]);
        if scc.len() > 1 {
            let ghost n_before = nodes_in_cycles@;
            let mut k: usize = 0;
            while k < scc.len()
                invariant
                    k <= scc@.len(),
                    nodes_in_cycles@ == n_before + scc@.take(k as int),
                decreases scc.len() - k,
            {
                nodes_in_cycles.push(scc[k]);
                assert(nodes_in_cycles@ =~= n_before + scc@.take(k + 1));
                k += 1;
            }
            assert(scc@.take(scc@.len() as int) =~= scc@);
            let (cycle, edges) = extract_cycle_from_scc(graph, scc);
            let ghost c_before = cycle_views(cycles@);
            cycles.push(cycle);
            assert(cycle_views(cycles@) =~= c_before.push(cycle@));
            let ghost e_before = cycle_edge_views(cycle_edges@);
            let mut j: usize = 0;
            while j < edges.len()
                invariant
                    j <= edges@.len(),
                    cycle_edge_views(cycle_edges@) == e_before + cycle_edge_views(edges@.take(j as int)),
                decreases edges.len() - j,
            {
                let e = &edges[j];
                let ghost ce = cycle_edge_views(cycle_edges@);
                cycle_edges.push(CycleEdge { from: e.from.clone(), to: e.to.clone(), line: e.line });
                assert(cycle_edge_views(cycle_edges@) =~= ce.push((e.from@, e.to@, e.line)));
                assert(edges@.take(j + 1) =~= edges@.take(j as int).push(*e));
                assert(cycle_edge_views(edges@.take(j + 1)) =~= cycle_edge_views(edges@.take(j as int)).push((e.from@, e.to@, e.line)));
                assert(cycle_edge_views(cycle_edges@) =~= e_before + cycle_edge_views(edges@.take(j + 1)));
                j += 1;
            }
            assert(edges@.take(edges@.len() as int) =~= edges@);
        }
        i += 1;
    }
    proof {
        assert forall|v: usize| v < graph_nodes(*graph).len() implies (nodes_in_cycles@.contains(v) <==> on_cycle(*graph, v as int)) by {
            lemma_cycle_membership(*graph, comps, v);
        }
    }
    CycleAnalysis { cycles, cycle_edges, nodes_in_cycles }
}

} // verus!

verus! {

/// The entries of `s` whose count is at least `t`, in order.
pub open spec fn at_least(s: Seq<(Seq<char>, usize)>, t: usize) -> Seq<(Seq<char>, usize)>
    decreases s.len(),
{
    if s.len() == 0 {
        seq![]
    } else {
        let rest = at_least(s.drop_last(), t);
        if s.last().1 >= t {
            rest.push(s.last())
        } else {
            rest
        }
    }
}

/// The entries of `v` whose count is at least `t`.
fn keep_at_least(v: Vec<(String, usize)>, t: usize) -> (r: Vec<(String, usize)>)
    ensures
        pair_views(r@) == at_least(pair_views(v@), t),
{
    let mut r: Vec<(String, usize)> = Vec::new();
    let mut i: usize = 0;
    while i < v.len()
        invariant
            i <= v@.len(),
            pair_views(r@) == at_least(pair_views(v@.take(i as int)), t),
        decreases v.len() - i,
    {
        let ghost before = pair_views(r@);
        assert(pair_views(v@.take(i + 1)).drop_last() =~= pair_views(v@.take(i as int)));
        if v[i].1 >= t {
            r.push((v[i].0.clone(), v[i].1));
            assert(pair_views(r@) =~= before.push((v@[i as int].0@, v@[i as int].1)));
        }
        i += 1;
    }
    assert(v@.take(v@.len() as int) =~= v@);
    r
}

/// Perform complete analysis of a dependency graph: cycles, layer violations, depths,
/// the deepest path, entry points, orphans, and the files whose fan-out or fan-in is at
/// least `fan_threshold`. Every depth reached must fit in a `usize`.
pub fn analyze(graph: &DepGraph, fan_threshold: usize) -> (r: AnalysisResult)
    requires
        bounded(depths_of(*graph), usize::MAX as int),
    ensures
        cycle_views(r.cycles@) == cycles_upto(*graph, components_of(*graph), components_of(*graph).len() as int),
        cycle_edge_views(r.cycle_edges@) == cycle_edges_upto(*graph, components_of(*graph), components_of(*graph).len() as int),
        violation_views(r.violations@) == violations_of(*graph),
        r.max_depth == max_depth_of(depths_of(*graph)),
        r.deepest_path@.map_values(|s: String| s@) == deepest_path_of(*graph),
        pair_views(r.high_fan_out@) == at_least(fan_of(*graph, false), fan_threshold),
        pair_views(r.high_fan_in@) == at_least(fan_of(*graph, true), fan_threshold),
        r.orphans@.map_values(|s: String| s@) == orphans_of(*graph),
        r.entry_points@.map_values(|s: String| s@) == entry_points_of(*graph),
{
    let cycle_analysis = find_cycles(graph);
    let violations = find_violations(graph);
    let depths = calculate_depths(graph);
    let max_depth = max_depth(&depths);
    let deepest_path = find_deepest_path(graph);
    let entry_points = find_entry_points(graph);
    let orphans = find_orphans(graph);
    let all_fan_out = calculate_fan_out(graph);
    let all_fan_in = calculate_fan_in(graph);
    let high_fan_out = keep_at_least(all_fan_out, fan_threshold);
    let high_fan_in = keep_at_least(all_fan_in, fan_threshold);
    AnalysisResult {
        cycles: cycle_analysis.cycles,
        cycle_edges: cycle_analysis.cycle_edges,
        violations,
        max_depth,
        deepest_path,
        high_fan_out,
        high_fan_in,
        orphans,
        entry_points,
    }
}

} // verus!

verus! {

// ---------------------------------------------------------------------------
// Depth as the longest walk
// ---------------------------------------------------------------------------

/// There is an edge from node `a` to node `b`.
pub open spec fn is_edge(g: DepGraph, a: int, b: int) -> bool {
    exists|e: int| #![trigger graph_edges(g)[e]] 0 <= e < graph_edges(g).len() && graph_edges(g)[e].0 == a && graph_edges(g)[e].1 == b
}

/// Step `i` of `w` follows an edge.
pub open spec fn step_ok(g: DepGraph, w: Seq<usize>, i: int) -> bool {
    is_edge(g, w[i] as int, w[i + 1] as int)
}

/// `w` is a walk: a nonempty list of nodes, each step along an edge.
pub open spec fn is_walk(g: DepGraph, w: Seq<usize>) -> bool {
    &&& w.len() >= 1
    &&& forall|i: int| 0 <= i < w.len() ==> (#[trigger] w[i]) < graph_nodes(g).len()
    &&& forall|i: int| 0 <= i < w.len() - 1 ==> #[trigger] step_ok(g, w, i)
}

/// Some walk of `len` edges ends at node `v`.
pub open spec fn has_walk(g: DepGraph, v: int, len: nat) -> bool {
    exists|w: Seq<usize>| #[trigger] is_walk(g, w) && w.len() == len + 1 && w.last() == v
}

/// No walk of one or more edges returns to where it started.
pub open spec fn acyclic(g: DepGraph) -> bool {
    forall|w: Seq<usize>| #[trigger] is_walk(g, w) && w.len() >= 2 ==> w[0] != w.last()
}

/// The depth a relaxation starts from: the node's depth, or 0 without one.
pub open spec fn base_of(o: Option<nat>) -> nat {
    match o {
        Some(x) => x,
        None => 0,
    }
}

/// Every depth in `d` is the length of a walk ending at its node.
pub open spec fn depths_walked(g: DepGraph, d: Seq<Option<nat>>) -> bool {
    forall|v: int| 0 <= v < d.len() ==> (#[trigger] d[v] matches Some(x) ==> has_walk(g, v, x))
}

/// `k` full passes over the nodes, without stopping.
pub open spec fn depth_passes(g: DepGraph, d: Seq<Option<nat>>, k: nat) -> Seq<Option<nat>>
    decreases k,
{
    if k == 0 {
        d
    } else {
        depth_passes(g, relax_pass(g, d, graph_nodes(g).len() as int), (k - 1) as nat)
    }
}

proof fn lemma_walk_extend(g: DepGraph, v: int, x: nat, e: int)
    requires
        has_walk(g, v, x),
        0 <= e < graph_edges(g).len(),
        graph_edges(g)[e].0 == v,
        edges_within(graph_edges(g), graph_nodes(g).len()),
    ensures
        has_walk(g, graph_edges(g)[e].1 as int, x + 1),
{
    let w = choose|w: Seq<usize>| #[trigger] is_walk(g, w) && w.len() == x + 1 && w.last() == v;
    let t = graph_edges(g)[e].1;
    let w2 = w.push(t);
    assert forall|i: int| 0 <= i < w2.len() implies (#[trigger] w2[i]) < graph_nodes(g).len() by {
        if i < w.len() {
            assert(w2[i] == w[i]);
        }
    }
    assert forall|i: int| 0 <= i < w2.len() - 1 implies #[trigger] step_ok(g, w2, i) by {
        if i < w.len() - 1 {
            assert(step_ok(g, w, i));
            assert(w2[i] == w[i] && w2[i + 1] == w[i + 1]);
        } else {
            assert(w2[i] == w.last() && w2[i + 1] == t);
            assert(graph_edges(g)[e].0 == w2[i] as int && graph_edges(g)[e].1 == w2[i + 1] as int);
        }
    }
    assert(is_walk(g, w2));
}

proof fn lemma_walk_start(g: DepGraph, v: int)
    requires
        0 <= v < graph_nodes(g).len(),
        graph_nodes(g).len() <= usize::MAX,
    ensures
        has_walk(g, v, 0),
{
    let w = seq![v as usize];
    assert(w[0] as int == v);
    assert(is_walk(g, w));
}

proof fn lemma_relax_edges_walked(
    g: DepGraph,
    d: Seq<Option<nat>>,
    outs: Seq<usize>,
    v: int,
    new: nat,
    k: int,
)
    requires
        0 <= k <= outs.len(),
        d.len() == graph_nodes(g).len(),
        edges_within(graph_edges(g), graph_nodes(g).len()),
        depths_walked(g, d),
        forall|j: int| 0 <= j < outs.len() ==> #[trigger] outs[j] < graph_edges(g).len() && graph_edges(g)[outs[j] as int].0 == v,
        new >= 1,
        has_walk(g, v, (new - 1) as nat),
    ensures
        depths_walked(g, relax_edges(d, graph_edges(g), outs, new, k)),
        relax_edges(d, graph_edges(g), outs, new, k).len() == d.len(),
    decreases k,
{
    if k > 0 {
        lemma_relax_edges_walked(g, d, outs, v, new, k - 1);
        let d1 = relax_edges(d, graph_edges(g), outs, new, k - 1);
        let e = outs[k - 1] as int;
        assert(outs[k - 1] < graph_edges(g).len());
        let t = graph_edges(g)[e].1 as int;
        lemma_walk_extend(g, v, (new - 1) as nat, e);
        let d2 = relax_edges(d, graph_edges(g), outs, new, k);
        assert forall|u: int| 0 <= u < d2.len() implies (#[trigger] d2[u] matches Some(x) ==> has_walk(g, u, x)) by {
            if u != t {
                assert(d1[u] matches Some(x) ==> has_walk(g, u, x));
            }
        }
    }
}

proof fn lemma_outs_leave(g: DepGraph, v: int)
    requires
        graph_edges(g).len() <= usize::MAX,
    ensures
        forall|j: int| 0 <= j < incident(graph_edges(g), v, false).len() ==> #[trigger] incident(graph_edges(g), v, false)[j]
            < graph_edges(g).len() && graph_edges(g)[incident(graph_edges(g), v, false)[j] as int].0 == v,
{
    let edges = graph_edges(g);
    let outs = incident(edges, v, false);
    assert forall|j: int| 0 <= j < outs.len() implies #[trigger] outs[j] < edges.len() && edges[outs[j] as int].0 == v by {
        lemma_incident_bound(edges, v, false, edges.len() as int, j);
        assert(outs.contains(outs[j]));
        lemma_incident_members(edges, v, edges.len() as int, outs[j] as int);
    }
}

proof fn lemma_relax_pass_walked(g: DepGraph, d: Seq<Option<nat>>, u: int)
    requires
        0 <= u,
        d.len() == graph_nodes(g).len(),
        graph_nodes(g).len() <= usize::MAX,
        graph_edges(g).len() <= usize::MAX,
        edges_within(graph_edges(g), graph_nodes(g).len()),
        depths_walked(g, d),
    ensures
        depths_walked(g, relax_pass(g, d, u)),
    decreases u,
{
    if u > 0 {
        lemma_relax_pass_walked(g, d, u - 1);
        lemma_relax_pass_grows(g, d, 0, u - 1);
        let p = relax_pass(g, d, u - 1);
        let v = u - 1;
        let outs = incident(graph_edges(g), v, false);
        lemma_outs_leave(g, v);
        if v < graph_nodes(g).len() {
            let new = base_of(p[v]) + 1;
            if p[v] is Some {
                assert(p[v] matches Some(x) ==> has_walk(g, v, x));
            } else {
                lemma_walk_start(g, v);
            }
            assert(new == (match p[v] {
                Some(x) => x,
                None => 0,
            }) + 1);
            lemma_relax_edges_walked(g, p, outs, v, new as nat, outs.len() as int);
        } else {
            // no edge leaves a node outside the graph
            assert(outs.len() == 0) by {
                if outs.len() > 0 {
                    assert(graph_edges(g)[outs[0] as int].0 == v);
                    assert(outs[0] < graph_edges(g).len());
                }
            }
        }
    }
}

proof fn lemma_passes_walked(g: DepGraph, d: Seq<Option<nat>>, k: nat)
    requires
        d.len() == graph_nodes(g).len(),
        graph_nodes(g).len() <= usize::MAX,
        graph_edges(g).len() <= usize::MAX,
        edges_within(graph_edges(g), graph_nodes(g).len()),
        depths_walked(g, d),
    ensures
        depths_walked(g, depth_passes(g, d, k)),
        depth_passes(g, d, k).len() == d.len(),
    decreases k,
{
    if k > 0 {
        let n = graph_nodes(g).len() as int;
        lemma_relax_pass_walked(g, d, n);
        lemma_relax_pass_grows(g, d, 0, n);
        lemma_passes_walked(g, relax_pass(g, d, n), (k - 1) as nat);
    }
}

proof fn lemma_passes_fixed(g: DepGraph, d: Seq<Option<nat>>, k: nat)
    requires
        relax_pass(g, d, graph_nodes(g).len() as int) == d,
    ensures
        depth_passes(g, d, k) == d,
    decreases k,
{
    if k > 0 {
        lemma_passes_fixed(g, d, (k - 1) as nat);
    }
}

proof fn lemma_rounds_are_passes(g: DepGraph, d: Seq<Option<nat>>, k: nat)
    ensures
        depth_rounds(g, d, k) == depth_passes(g, d, k),
    decreases k,
{
    if k > 0 {
        let d2 = relax_pass(g, d, graph_nodes(g).len() as int);
        if d2 == d {
            lemma_passes_fixed(g, d, k);
        } else {
            lemma_rounds_are_passes(g, d2, (k - 1) as nat);
        }
    }
}

proof fn lemma_passes_step(g: DepGraph, d: Seq<Option<nat>>, k: nat)
    requires
        k >= 1,
    ensures
        depth_passes(g, d, k) == relax_pass(g, depth_passes(g, d, (k - 1) as nat), graph_nodes(g).len() as int),
    decreases k,
{
    let p = relax_pass(g, d, graph_nodes(g).len() as int);
    assert(depth_passes(g, d, k) == depth_passes(g, p, (k - 1) as nat));
    if k > 1 {
        lemma_passes_step(g, p, (k - 1) as nat);
        assert(depth_passes(g, d, (k - 1) as nat) == depth_passes(g, p, (k - 2) as nat));
    } else {
        assert(depth_passes(g, p, 0) == p);
        assert(depth_passes(g, d, 0) == d);
    }
}

/// After a pass, the target of every edge is deeper than its source was before it.
proof fn lemma_pass_edge(g: DepGraph, d: Seq<Option<nat>>, e: int)
    requires
        d.len() == graph_nodes(g).len(),
        graph_edges(g).len() <= usize::MAX,
        edges_within(graph_edges(g), graph_nodes(g).len()),
        0 <= e < graph_edges(g).len(),
    ensures
        opt_ge(
            relax_pass(g, d, graph_nodes(g).len() as int)[graph_edges(g)[e].1 as int],
            Some(base_of(d[graph_edges(g)[e].0 as int]) + 1),
        ),
{
    let n = graph_nodes(g).len() as int;
    let edges = graph_edges(g);
    let v = edges[e].0 as int;
    let t = edges[e].1 as int;
    lemma_relax_pass_grows(g, d, 0, v);
    let cur = relax_pass(g, d, v);
    assert(opt_ge(cur[v], d[v]));
    let outs = incident(edges, v, false);
    lemma_incident_members(edges, v, edges.len() as int, e);
    let j = choose|j: int| 0 <= j < outs.len() && outs[j] == e as usize;
    assert(outs[j] as int == e);
    lemma_outs_within(g, cur, v);
    let new = (match cur[v] {
        Some(x) => x,
        None => 0,
    }) + 1;
    lemma_relax_edges_hits(cur, edges, outs, new as nat, outs.len() as int, j);
    assert(relax_pass(g, d, v + 1) == relax_edges(cur, edges, outs, new as nat, outs.len() as int));
    lemma_relax_pass_grows(g, d, v + 1, n);
    assert(opt_ge(relax_pass(g, d, n)[t], relax_pass(g, d, v + 1)[t]));
}

/// After `k` passes, every walk of `len` edges (1 <= len <= k) ending at a node has made
/// it at least that deep.
proof fn lemma_passes_reach(g: DepGraph, d: Seq<Option<nat>>, k: nat, w: Seq<usize>)
    requires
        d.len() == graph_nodes(g).len(),
        graph_edges(g).len() <= usize::MAX,
        edges_within(graph_edges(g), graph_nodes(g).len()),
        is_walk(g, w),
        2 <= w.len() <= k + 1,
    ensures
        opt_ge(depth_passes(g, d, k)[w.last() as int], Some((w.len() - 1) as nat)),
    decreases k,
{
    let n = graph_nodes(g).len() as int;
    let len = (w.len() - 1) as nat;
    lemma_passes_step(g, d, k);
    let prev = depth_passes(g, d, (k - 1) as nat);
    lemma_passes_len(g, d, (k - 1) as nat);
    lemma_relax_pass_grows(g, prev, 0, n);
    if len < k {
        lemma_passes_reach(g, d, (k - 1) as nat, w);
        assert(opt_ge(depth_passes(g, d, k)[w.last() as int], prev[w.last() as int]));
    } else {
        let i = w.len() - 2;
        assert(step_ok(g, w, i));
        let e = choose|e: int| #![trigger graph_edges(g)[e]] 0 <= e < graph_edges(g).len() && graph_edges(g)[e].0 == w[i] as int
            && graph_edges(g)[e].1 == w[i + 1] as int;
        lemma_pass_edge(g, prev, e);
        assert(w[i + 1] == w.last());
        if len >= 2 {
            let w1 = w.take(w.len() - 1);
            assert forall|q: int| 0 <= q < w1.len() implies (#[trigger] w1[q]) < graph_nodes(g).len() by {
                assert(w1[q] == w[q]);
            }
            assert forall|q: int| 0 <= q < w1.len() - 1 implies #[trigger] step_ok(g, w1, q) by {
                assert(step_ok(g, w, q));
                assert(w1[q] == w[q] && w1[q + 1] == w[q + 1]);
            }
            lemma_passes_reach(g, d, (k - 1) as nat, w1);
            assert(w1.last() == w[i]);
        }
    }
}

proof fn lemma_passes_len(g: DepGraph, d: Seq<Option<nat>>, k: nat)
    requires
        d.len() == graph_nodes(g).len(),
        edges_within(graph_edges(g), graph_nodes(g).len()),
    ensures
        depth_passes(g, d, k).len() == d.len(),
        dominates(depth_passes(g, d, k), d),
    decreases k,
{
    if k == 0 {
        assert forall|i: int| 0 <= i < d.len() implies opt_ge(#[trigger] d[i], d[i]) by {}
    } else {
        let n = graph_nodes(g).len() as int;
        lemma_relax_pass_grows(g, d, 0, n);
        lemma_passes_len(g, relax_pass(g, d, n), (k - 1) as nat);
        lemma_dominates_trans(depth_passes(g, d, k), relax_pass(g, d, n), d);
    }
}

/// In an acyclic graph no walk visits more nodes than the graph has.
proof fn lemma_walks_are_short(g: DepGraph, w: Seq<usize>)
    requires
        acyclic(g),
        is_walk(g, w),
    ensures
        w.len() <= graph_nodes(g).len(),
{
    let n = graph_nodes(g).len() as int;
    if w.len() > n {
        let u = w.take(n + 1).map_values(|x: usize| x as int);
        if u.no_duplicates() {
            u.unique_seq_to_set();
            vstd::set_lib::lemma_int_range(0, n);
            assert(u.to_set().subset_of(vstd::set_lib::set_int_range(0, n))) by {
                assert forall|x: int| u.to_set().contains(x) implies vstd::set_lib::set_int_range(0, n).contains(x) by {
                    let q = choose|q: int| 0 <= q < u.len() && u[q] == x;
                    assert(w[q] < n);
                }
            }
            vstd::set_lib::lemma_len_subset(u.to_set(), vstd::set_lib::set_int_range(0, n));
        } else {
            let (i, j) = choose|i: int, j: int| 0 <= i < u.len() && 0 <= j < u.len() && i != j && u[i] == u[j];
            let (a, b) = if i < j { (i, j) } else { (j, i) };
            let sub = w.subrange(a, b + 1);
            assert(w[a] == w[b]);
            assert forall|q: int| 0 <= q < sub.len() implies (#[trigger] sub[q]) < graph_nodes(g).len() by {
                assert(sub[q] == w[a + q]);
            }
            assert forall|q: int| 0 <= q < sub.len() - 1 implies #[trigger] step_ok(g, sub, q) by {
                assert(step_ok(g, w, a + q));
                assert(sub[q] == w[a + q] && sub[q + 1] == w[a + q + 1]);
            }
            assert(is_walk(g, sub));
            assert(sub[0] == sub.last());
        }
    }
}

proof fn lemma_in_edges_exist(edges: Seq<(usize, usize, Import)>, a: int, upto: int)
    requires
        0 <= upto <= edges.len(),
        crate::graph::incident_from(edges, a, true, upto).len() > 0,
    ensures
        exists|e: int| #![trigger edges[e]] 0 <= e < upto && edges[e].1 == a,
    decreases upto,
{
    if edges[upto - 1].1 != a {
        lemma_in_edges_exist(edges, a, upto - 1);
    } else {
        assert(edges[upto - 1].1 == a);
    }
}

/// On an acyclic graph, the depth of every node is the length of the longest walk that
/// ends at it (so 0 for a node nothing imports, and otherwise the longest chain of imports
/// from a file nothing imports).
pub proof fn law_depth_is_longest_walk(g: DepGraph, v: int)
    requires
        acyclic(g),
        0 <= v < graph_nodes(g).len(),
        graph_nodes(g).len() <= usize::MAX,
        graph_edges(g).len() <= usize::MAX,
        edges_within(graph_edges(g), graph_nodes(g).len()),
    ensures
        depths_of(g)[v] matches Some(x) && has_walk(g, v, x) && forall|len: nat| #[trigger] has_walk(g, v, len) ==> len <= x,
{
    let n = graph_nodes(g).len();
    let init = initial_depths(g);
    assert(depths_walked(g, init)) by {
        assert forall|u: int| 0 <= u < init.len() implies (#[trigger] init[u] matches Some(x) ==> has_walk(g, u, x)) by {
            if init[u] is Some {
                lemma_walk_start(g, u);
            }
        }
    }
    lemma_rounds_are_passes(g, init, n);
    lemma_passes_walked(g, init, n);
    lemma_passes_len(g, init, n);
    let fin = depths_of(g);
    assert(fin == depth_passes(g, init, n));
    // the node has a depth
    if in_degree(g, v) > 0 {
        lemma_in_edges_exist(graph_edges(g), v, graph_edges(g).len() as int);
        let e = choose|e: int| #![trigger graph_edges(g)[e]] 0 <= e < graph_edges(g).len() && graph_edges(g)[e].1 == v;
        let s = graph_edges(g)[e].0;
        let w = seq![s, v as usize];
        assert(step_ok(g, w, 0));
        assert(is_walk(g, w));
        lemma_passes_reach(g, init, n, w);
    } else {
        assert(init[v] == Some(0nat));
        assert(opt_ge(fin[v], init[v]));
    }
    assert(fin[v] is Some);
    assert(fin[v] matches Some(x) ==> has_walk(g, v, x));
    let x = fin[v]->0;
    assert forall|len: nat| #[trigger] has_walk(g, v, len) implies len <= x by {
        if len >= 1 {
            let w = choose|w: Seq<usize>| #[trigger] is_walk(g, w) && w.len() == len + 1 && w.last() == v;
            lemma_walks_are_short(g, w);
            lemma_passes_reach(g, init, n, w);
        }
    }
}

/// On an acyclic graph every depth is below the number of nodes, so the depth functions'
/// requirement that depths fit in a `usize` is met.
pub proof fn law_acyclic_depths_fit(g: DepGraph)
    requires
        acyclic(g),
        graph_nodes(g).len() <= usize::MAX,
        graph_edges(g).len() <= usize::MAX,
        edges_within(graph_edges(g), graph_nodes(g).len()),
    ensures
        bounded(depths_of(g), usize::MAX as int),
{
    let n = graph_nodes(g).len();
    lemma_rounds_are_passes(g, initial_depths(g), n);
    lemma_passes_len(g, initial_depths(g), n);
    assert forall|v: int| 0 <= v < depths_of(g).len() implies (#[trigger] depths_of(g)[v] matches Some(x) ==> x <= usize::MAX) by {
        law_depth_is_longest_walk(g, v);
        let x = depths_of(g)[v]->0;
        let w = choose|w: Seq<usize>| #[trigger] is_walk(g, w) && w.len() == x + 1 && w.last() == v;
        lemma_walks_are_short(g, w);
    }
}

} // verus!
