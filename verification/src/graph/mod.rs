//! Dependency graph construction: layers, file nodes, and the graph builder.

pub mod analysis;

use vstd::prelude::*;
use petgraph::visit::EdgeRef;
use crate::text::{chars_of, chars_eq, starts_with_chars, has_prefix, str_to_string, sub_vec, append_all, string_from_chars, clone_opt_string, views};

verus! {

broadcast use vstd::string::group_string_axioms;

// ---------------------------------------------------------------------------
// Layers
// ---------------------------------------------------------------------------

/// Architectural layer classification for files.
#[derive(Clone, Copy, Debug, PartialEq, Eq, Hash, Structural)]
pub enum Layer {
    /// Entry point (main.zig)
    Entry,
    /// Application layer (shell/*, init.zig)
    App,
    /// Core kernel functionality (kernel/*, memory/*)
    Core,
    /// Platform abstraction (platform/*, exceptions.zig)
    Platform,
    /// Device drivers (drivers/*)
    Driver,
    /// Architecture-specific code (arch/*)
    Arch,
    /// Unclassified files
    Unknown,
}

/// The display name of a layer.
pub open spec fn layer_name(l: Layer) -> Seq<char> {
    match l {
        Layer::Entry => "Entry"@,
        Layer::App => "App"@,
        Layer::Core => "Core"@,
        Layer::Platform => "Platform"@,
        Layer::Driver => "Driver"@,
        Layer::Arch => "Arch"@,
        Layer::Unknown => "Unknown"@,
    }
}

/// A path with every backslash turned into a forward slash.
pub open spec fn normalize_separators(p: Seq<char>) -> Seq<char> {
    p.map_values(|c: char| if c == '\\' { '/' } else { c })
}

/// The layer of a file, from its path relative to the project root.
pub open spec fn layer_of_path(p: Seq<char>) -> Layer {
    let n = normalize_separators(p);
    if n == "main.zig"@ {
        Layer::Entry
    } else if has_prefix(n, "shell/"@) || n == "init.zig"@ {
        Layer::App
    } else if has_prefix(n, "kernel/"@) || has_prefix(n, "memory/"@) {
        Layer::Core
    } else if has_prefix(n, "platform/"@) || n == "exceptions.zig"@ {
        Layer::Platform
    } else if has_prefix(n, "drivers/"@) {
        Layer::Driver
    } else if has_prefix(n, "arch/"@) {
        Layer::Arch
    } else {
        Layer::Unknown
    }
}

/// A file's layer does not depend on which separator its path uses: turning backslashes
/// into slashes leaves the layer as it is.
pub proof fn law_layer_ignores_separators(p: Seq<char>)
    ensures
        layer_of_path(normalize_separators(p)) == layer_of_path(p),
{
    assert(normalize_separators(normalize_separators(p)) =~= normalize_separators(p));
}

/// `p` with every backslash turned into a forward slash.
pub fn normalize_separators_vec(p: &[char]) -> (r: Vec<char>)
    ensures
        r@ == normalize_separators(p@),
{
    let mut r: Vec<char> = Vec::new();
    let mut i: usize = 0;
    while i < p.len()
        invariant
            i <= p@.len(),
            r@ == normalize_separators(p@.take(i as int)),
        decreases p.len() - i,
    {
        let c = p[i];
        r.push(if c == '\\' { '/' } else { c });
        i += 1;
        assert(r@ =~= normalize_separators(p@.take(i as int)));
    }
    assert(p@.take(p@.len() as int) =~= p@);
    r
}

impl Layer {
    /// The display name of the layer ("Entry", "App", ...).
    pub fn name(&self) -> (r: &'static str)
        ensures
            r@ == layer_name(*self),
    {
        match self {
            Layer::Entry => "Entry",
            Layer::App => "App",
            Layer::Core => "Core",
            Layer::Platform => "Platform",
            Layer::Driver => "Driver",
            Layer::Arch => "Arch",
            Layer::Unknown => "Unknown",
        }
    }

    /// The display name of the layer, as an owned string.
    pub fn to_string(&self) -> (r: String)
        ensures
            r@ == layer_name(*self),
    {
        str_to_string(self.name())
    }

    /// Classify a file based on its relative path.
    ///
    /// - main.zig -> Entry
    /// - shell/*, init.zig -> App
    /// - kernel/*, memory/* -> Core
    /// - platform/*, exceptions.zig -> Platform
    /// - drivers/* -> Driver
    /// - arch/* -> Arch
    ///
    /// Backslashes count as path separators.
    pub fn from_path(relative_path: &str) -> (l: Layer)
        ensures
            l == layer_of_path(relative_path@),
    {
        let raw = chars_of(relative_path);
        let n = normalize_separators_vec(&raw);
        if chars_eq(&n, &chars_of("main.zig")) {
            Layer::Entry
        } else if starts_with_chars(&n, &chars_of("shell/")) || chars_eq(&n, &chars_of("init.zig")) {
            Layer::App
        } else if starts_with_chars(&n, &chars_of("kernel/")) || starts_with_chars(&n, &chars_of("memory/")) {
            Layer::Core
        } else if starts_with_chars(&n, &chars_of("platform/")) || chars_eq(&n, &chars_of("exceptions.zig")) {
            Layer::Platform
        } else if starts_with_chars(&n, &chars_of("drivers/")) {
            Layer::Driver
        } else if starts_with_chars(&n, &chars_of("arch/")) {
            Layer::Arch
        } else {
            Layer::Unknown
        }
    }
}

// ---------------------------------------------------------------------------
// Nodes, edges and the graph
// ---------------------------------------------------------------------------

/// A node in the dependency graph representing a source file.
#[derive(Debug, Clone)]
pub struct FileNode {
    /// Absolute path to the file
    pub path: String,
    /// Path relative to project root
    pub relative_path: String,
    /// Architectural layer this file belongs to
    pub layer: Layer,
    /// Distance from entry point
    pub depth: usize,
    /// Optional summary of the file's purpose
    pub summary: Option<String>,
    /// Public exports from this file
    pub exports: Vec<String>,
    /// Lines of code
    pub loc: usize,
}

/// Edge metadata representing an import relationship.
#[derive(Debug, Clone, Copy, PartialEq, Eq, Structural)]
pub struct Import {
    /// Line number where the import occurs
    pub line: usize,
}

#[verifier::external_type_specification]
#[verifier::external_body]
#[verifier::reject_recursive_types(N)]
#[verifier::reject_recursive_types(E)]
#[verifier::reject_recursive_types(Ty)]
#[verifier::reject_recursive_types(Ix)]
pub struct ExGraph<N, E, Ty, Ix>(petgraph::graph::Graph<N, E, Ty, Ix>);

#[verifier::external_type_specification]
#[verifier::external_body]
pub struct ExDirected(petgraph::Directed);

/// Dependency graph: a petgraph directed graph of files and imports.
///
/// The petgraph value is private: it is made empty by `DepGraph::new` and changed only by
/// adding a node or an edge. Nothing is ever removed, so node and edge indices are the
/// order of addition, and petgraph's per-node edge lists run in reverse order of addition,
/// which is descending edge index.
#[derive(Debug)]
pub struct DepGraph {
    graph: petgraph::graph::Graph<FileNode, Import, petgraph::Directed, u32>,
}

/// The node weights of a graph, by node index.
pub uninterp spec fn graph_nodes(g: DepGraph) -> Seq<FileNode>;

/// The edges of a graph, by edge index: (source, target, weight).
pub uninterp spec fn graph_edges(g: DepGraph) -> Seq<(usize, usize, Import)>;

impl DepGraph {
    /// A new, empty graph.
    pub fn new() -> (g: DepGraph)
        ensures
            graph_nodes(g) == Seq::<FileNode>::empty(),
            graph_edges(g) == Seq::<(usize, usize, Import)>::empty(),
    {
        graph_new()
    }

    /// The number of nodes.
    pub fn node_count(&self) -> (n: usize)
        ensures
            n == graph_nodes(*self).len(),
    {
        graph_node_count(self)
    }

    /// The number of edges.
    pub fn edge_count(&self) -> (n: usize)
        ensures
            n == graph_edges(*self).len(),
    {
        graph_edge_count(self)
    }

    /// Add a node, which gets the next index; the count must stay below the `u32` index
    /// limit.
    pub fn add_node(&mut self, weight: FileNode) -> (idx: usize)
        requires
            graph_nodes(*old(self)).len() < u32::MAX,
        ensures
            idx == graph_nodes(*old(self)).len(),
            graph_nodes(*final(self)) == graph_nodes(*old(self)).push(weight),
            graph_edges(*final(self)) == graph_edges(*old(self)),
    {
        graph_add_node(self, weight)
    }

    /// Add an edge from node `a` to node `b`; both must exist, and the edge count must stay
    /// below the `u32` index limit.
    pub fn add_edge(&mut self, a: usize, b: usize, weight: Import)
        requires
            a < graph_nodes(*old(self)).len(),
            b < graph_nodes(*old(self)).len(),
            graph_edges(*old(self)).len() < u32::MAX,
        ensures
            graph_nodes(*final(self)) == graph_nodes(*old(self)),
            graph_edges(*final(self)) == graph_edges(*old(self)).push((a, b, weight)),
    {
        graph_add_edge(self, a, b, weight)
    }

    /// The weight of node `i`.
    pub fn node(&self, i: usize) -> (n: &FileNode)
        requires
            i < graph_nodes(*self).len(),
        ensures
            *n == graph_nodes(*self)[i as int],
    {
        graph_node(self, i)
    }

    /// All edges as (source, target, weight), in index order.
    pub fn raw_edges(&self) -> (r: Vec<(usize, usize, Import)>)
        ensures
            r@ == graph_edges(*self),
    {
        graph_raw_edges(self)
    }
}

/// Every edge endpoint is a node of the graph.
pub open spec fn edges_within(edges: Seq<(usize, usize, Import)>, n: nat) -> bool {
    forall|e: int| 0 <= e < edges.len() ==> (#[trigger] edges[e]).0 < n && edges[e].1 < n
}

/// The indices of the edges below `upto` that leave `a` (or, with `incoming`, enter `a`),
/// the most recently added first.
pub open spec fn incident_from(
    edges: Seq<(usize, usize, Import)>,
    a: int,
    incoming: bool,
    upto: int,
) -> Seq<usize>
    decreases upto,
{
    if upto <= 0 {
        seq![]
    } else {
        let e = edges[upto - 1];
        let rest = incident_from(edges, a, incoming, upto - 1);
        if (if incoming { e.1 } else { e.0 }) == a {
            seq![(upto - 1) as usize] + rest
        } else {
            rest
        }
    }
}

/// The edges incident to `a` in the given direction, most recent first.
pub open spec fn incident(edges: Seq<(usize, usize, Import)>, a: int, incoming: bool) -> Seq<usize> {
    incident_from(edges, a, incoming, edges.len() as int)
}

/// The number of edges leaving `a`.
pub open spec fn out_degree(g: DepGraph, a: int) -> nat {
    incident(graph_edges(g), a, false).len()
}

/// The number of edges entering `a`.
pub open spec fn in_degree(g: DepGraph, a: int) -> nat {
    incident(graph_edges(g), a, true).len()
}

/// A new, empty graph (`Graph::new`).
#[verifier::external_body]
pub(crate) fn graph_new() -> (g: DepGraph)
    ensures
        graph_nodes(g) == Seq::<FileNode>::empty(),
        graph_edges(g) == Seq::<(usize, usize, Import)>::empty(),
{
    DepGraph { graph: petgraph::graph::Graph::new() }
}

/// The number of nodes (`Graph::node_count`).
#[verifier::external_body]
pub(crate) fn graph_node_count(g: &DepGraph) -> (n: usize)
    ensures
        n == graph_nodes(*g).len(),
{
    g.graph.node_count()
}

/// The number of edges (`Graph::edge_count`).
#[verifier::external_body]
pub(crate) fn graph_edge_count(g: &DepGraph) -> (n: usize)
    ensures
        n == graph_edges(*g).len(),
{
    g.graph.edge_count()
}

/// Adds a node (`Graph::add_node`), which is given the next index. The graph panics at the
/// maximum number of nodes of its `u32` index, so the node count must stay below it.
#[verifier::external_body]
pub(crate) fn graph_add_node(g: &mut DepGraph, weight: FileNode) -> (idx: usize)
    requires
        graph_nodes(*old(g)).len() < u32::MAX,
    ensures
        idx == graph_nodes(*old(g)).len(),
        graph_nodes(*final(g)) == graph_nodes(*old(g)).push(weight),
        graph_edges(*final(g)) == graph_edges(*old(g)),
{
    g.graph.add_node(weight).index()
}

/// Adds an edge from `a` to `b` (`Graph::add_edge`), which panics unless both nodes exist
/// and the edge count is below the `u32` index limit.
#[verifier::external_body]
pub(crate) fn graph_add_edge(g: &mut DepGraph, a: usize, b: usize, weight: Import)
    requires
        a < graph_nodes(*old(g)).len(),
        b < graph_nodes(*old(g)).len(),
        graph_edges(*old(g)).len() < u32::MAX,
    ensures
        graph_nodes(*final(g)) == graph_nodes(*old(g)),
        graph_edges(*final(g)) == graph_edges(*old(g)).push((a, b, weight)),
{
    g.graph.add_edge(petgraph::graph::NodeIndex::new(a), petgraph::graph::NodeIndex::new(b), weight);
}

/// The weight of node `i` (`Graph` indexing).
#[verifier::external_body]
pub(crate) fn graph_node(g: &DepGraph, i: usize) -> (n: &FileNode)
    requires
        i < graph_nodes(*g).len(),
    ensures
        *n == graph_nodes(*g)[i as int],
{
    &g.graph[petgraph::graph::NodeIndex::new(i)]
}

/// All edges as (source, target, weight), in index order (`Graph::raw_edges`). Every
/// endpoint is a node: `add_edge` refuses any other.
#[verifier::external_body]
pub(crate) fn graph_raw_edges(g: &DepGraph) -> (r: Vec<(usize, usize, Import)>)
    ensures
        r@ == graph_edges(*g),
        edges_within(r@, graph_nodes(*g).len()),
{
    g.graph.raw_edges().iter().map(|e| (e.source().index(), e.target().index(), e.weight)).collect()
}

/// The indices of the edges leaving node `a` (`incoming` false) or entering it
/// (`incoming` true), as `Graph::edges_directed` lists them for a directed graph: in
/// reverse order of their addition, which in a `DepGraph` (never an edge removed) is
/// descending edge index.
#[verifier::external_body]
pub(crate) fn graph_edges_directed(g: &DepGraph, a: usize, incoming: bool) -> (r: Vec<usize>)
    requires
        a < graph_nodes(*g).len(),
    ensures
        r@ == incident(graph_edges(*g), a as int, incoming),
{
    let dir = if incoming { petgraph::Direction::Incoming } else { petgraph::Direction::Outgoing };
    g.graph.edges_directed(petgraph::graph::NodeIndex::new(a), dir).map(|e| e.id().index()).collect()
}

// ---------------------------------------------------------------------------
// Paths
// ---------------------------------------------------------------------------

/// `s` without its trailing copies of `c`.
pub open spec fn trim_end_char(s: Seq<char>, c: char) -> Seq<char>
    decreases s.len(),
{
    if s.len() > 0 && s.last() == c {
        trim_end_char(s.drop_last(), c)
    } else {
        s
    }
}

/// The last index below `i` holding `c`.
pub open spec fn last_index_before(s: Seq<char>, c: char, i: int) -> Option<int>
    decreases i,
{
    if i <= 0 {
        None
    } else if s[i - 1] == c {
        Some(i - 1)
    } else {
        last_index_before(s, c, i - 1)
    }
}

/// The directory part of a `/`-separated path: the text before its last separator, with
/// trailing separators removed ("/" when that leaves the root, "" when there is no
/// separator). A path that is empty or only separators has none.
pub open spec fn parent_of(p: Seq<char>) -> Option<Seq<char>> {
    let q = trim_end_char(p, '/');
    if q.len() == 0 {
        None
    } else {
        match last_index_before(q, '/', q.len() as int) {
            None => Some(seq![]),
            Some(k) => {
                let d = trim_end_char(q.take(k), '/');
                if d.len() == 0 {
                    Some(seq!['/'])
                } else {
                    Some(d)
                }
            },
        }
    }
}

/// `t` joined onto directory `dir`: `t` itself when it is absolute or `dir` is empty.
pub open spec fn join_path(dir: Seq<char>, t: Seq<char>) -> Seq<char> {
    if t.len() > 0 && t[0] == '/' {
        t
    } else if dir.len() == 0 {
        t
    } else if dir.last() == '/' {
        dir + t
    } else {
        dir + seq!['/'] + t
    }
}

fn trim_end_char_vec(s: &[char], c: char) -> (r: Vec<char>)
    ensures
        r@ == trim_end_char(s@, c),
{
    let mut i: usize = s.len();
    assert(s@.take(s@.len() as int) =~= s@);
    while i > 0 && s[i - 1] == c
        invariant
            i <= s@.len(),
            trim_end_char(s@, c) == trim_end_char(s@.take(i as int), c),
        decreases i,
    {
        assert(s@.take(i as int).drop_last() =~= s@.take(i - 1));
        i -= 1;
    }
    assert(s@.take(i as int) =~= s@.subrange(0, i as int));
    sub_vec(s, 0, i)
}

/// The directory part of a `/`-separated path.
pub fn parent_dir(p: &[char]) -> (r: Option<Vec<char>>)
    ensures
        r matches Some(d) ==> parent_of(p@) == Some(d@),
        r is None ==> parent_of(p@) is None,
{
    let q = trim_end_char_vec(p, '/');
    if q.len() == 0 {
        return None;
    }
    let mut i: usize = q.len();
    while i > 0 && q[i - 1] != '/'
        invariant
            i <= q@.len(),
            last_index_before(q@, '/', q@.len() as int) == last_index_before(q@, '/', i as int),
        decreases i,
    {
        i -= 1;
    }
    if i == 0 {
        Some(Vec::new())
    } else {
        let head = sub_vec(&q, 0, i - 1);
        assert(head@ =~= q@.take(i - 1));
        let d = trim_end_char_vec(&head, '/');
        if d.len() == 0 {
            let mut root = Vec::new();
            root.push('/');
            assert(root@ =~= seq!['/']);
            Some(root)
        } else {
            Some(d)
        }
    }
}

/// `t` joined onto directory `dir`.
pub fn join_path_vec(dir: &[char], t: &[char]) -> (r: Vec<char>)
    ensures
        r@ == join_path(dir@, t@),
{
    let mut r: Vec<char> = Vec::new();
    if t.len() > 0 && t[0] == '/' {
        append_all(&mut r, t);
    } else if dir.len() == 0 {
        append_all(&mut r, t);
    } else if dir[dir.len() - 1] == '/' {
        append_all(&mut r, dir);
        append_all(&mut r, t);
    } else {
        append_all(&mut r, dir);
        r.push('/');
        append_all(&mut r, t);
    }
    r
}

} // verus!

verus! {



// ---------------------------------------------------------------------------
// Standard library imports
// ---------------------------------------------------------------------------

/// Standard library imports: "std", "builtin", and anything starting with "std.".
pub open spec fn is_std(target: Seq<char>) -> bool {
    target == "std"@ || target == "builtin"@ || has_prefix(target, "std."@)
}

/// Check if an import target is a standard library import.
pub fn is_std_import(target: &str) -> (b: bool)
    ensures
        b == is_std(target@),
{
    let t = chars_of(target);
    chars_eq(&t, &chars_of("std")) || chars_eq(&t, &chars_of("builtin")) || starts_with_chars(
        &t,
        &chars_of("std."),
    )
}

// ---------------------------------------------------------------------------
// The graph builder
// ---------------------------------------------------------------------------

/// An import that could not be resolved to a file node.
#[derive(Debug, Clone)]
pub struct UnresolvedImport {
    pub source_file: String,
    pub target: String,
    pub line: usize,
}

/// The node index recorded for path `p`, searching `entries` from index `i` on.
pub open spec fn lookup_from(entries: Seq<(String, usize)>, p: Seq<char>, i: int) -> Option<usize>
    decreases entries.len() - i,
{
    if i < 0 || i >= entries.len() {
        None
    } else if entries[i].0@ == p {
        Some(entries[i].1)
    } else {
        lookup_from(entries, p, i + 1)
    }
}

/// The node index recorded for path `p`.
pub open spec fn lookup(entries: Seq<(String, usize)>, p: Seq<char>) -> Option<usize> {
    lookup_from(entries, p, 0)
}

/// The canonical path that a disk probe gave for `p`: `None` when `p` was not found on
/// disk, `Some(None)` when it exists but could not be canonicalized.
pub open spec fn disk_lookup_from(disk: Seq<(String, Option<String>)>, p: Seq<char>, i: int) -> Option<Option<Seq<char>>>
    decreases disk.len() - i,
{
    if i < 0 || i >= disk.len() {
        None
    } else if disk[i].0@ == p {
        Some(match disk[i].1 {
            Some(c) => Some(c@),
            None => None,
        })
    } else {
        disk_lookup_from(disk, p, i + 1)
    }
}

/// The disk probe result recorded for `p`.
pub open spec fn disk_lookup(disk: Seq<(String, Option<String>)>, p: Seq<char>) -> Option<Option<Seq<char>>> {
    disk_lookup_from(disk, p, 0)
}

/// The paths an import may refer to, in the order they are tried: next to the importing
/// file, then under the project root. Standard library imports have none.
pub open spec fn candidates(root: Seq<char>, source: Seq<char>, target: Seq<char>) -> Seq<Seq<char>> {
    if is_std(target) {
        seq![]
    } else {
        match parent_of(source) {
            Some(d) => seq![join_path(d, target), join_path(root, target)],
            None => seq![join_path(root, target)],
        }
    }
}

/// Resolution of an import through its candidates from index `i` on: the first candidate
/// that is a node of the graph, or that exists on disk (then its canonical form, if it
/// has one).
pub open spec fn resolve_from(
    entries: Seq<(String, usize)>,
    disk: Seq<(String, Option<String>)>,
    cands: Seq<Seq<char>>,
    i: int,
) -> Option<Seq<char>>
    decreases cands.len() - i,
{
    if i < 0 || i >= cands.len() {
        None
    } else if lookup(entries, cands[i]) is Some {
        Some(cands[i])
    } else if disk_lookup(disk, cands[i]) is Some {
        disk_lookup(disk, cands[i]).unwrap()
    } else {
        resolve_from(entries, disk, cands, i + 1)
    }
}

/// The path an import resolves to, if any.
pub open spec fn resolve(
    entries: Seq<(String, usize)>,
    disk: Seq<(String, Option<String>)>,
    root: Seq<char>,
    source: Seq<char>,
    target: Seq<char>,
) -> Option<Seq<char>> {
    resolve_from(entries, disk, candidates(root, source, target), 0)
}

/// What becomes of one import.
pub enum ImportOutcome {
    /// A standard library import, left out.
    Skipped,
    /// An edge of the graph.
    Edge(usize, usize, Import),
    /// An import whose target is not a node of the graph.
    Unresolved(UnresolvedImport),
}

/// What becomes of import `target` at `line` of the file `source`, node `src_idx`.
pub open spec fn import_outcome(
    entries: Seq<(String, usize)>,
    disk: Seq<(String, Option<String>)>,
    root: Seq<char>,
    include_std: bool,
    source: String,
    src_idx: usize,
    target: String,
    line: usize,
) -> ImportOutcome {
    if !include_std && is_std(target@) {
        ImportOutcome::Skipped
    } else {
        let unresolved = ImportOutcome::Unresolved(
            UnresolvedImport { source_file: source, target: target, line: line },
        );
        match resolve(entries, disk, root, source@, target@) {
            Some(tp) => match lookup(entries, tp) {
                Some(ti) => ImportOutcome::Edge(src_idx, ti, Import { line: line }),
                None => unresolved,
            },
            None => unresolved,
        }
    }
}

/// What becomes of the imports of one file of the import map, in order. A file that is
/// not a node of the graph contributes nothing.
pub open spec fn entry_outcomes(
    entries: Seq<(String, usize)>,
    disk: Seq<(String, Option<String>)>,
    root: Seq<char>,
    include_std: bool,
    entry: (String, Vec<(String, usize)>),
) -> Seq<ImportOutcome> {
    match lookup(entries, entry.0@) {
        None => seq![],
        Some(src_idx) => Seq::new(
            entry.1@.len(),
            |j: int|
                import_outcome(
                    entries,
                    disk,
                    root,
                    include_std,
                    entry.0,
                    src_idx,
                    entry.1@[j].0,
                    entry.1@[j].1,
                ),
        ),
    }
}

/// What becomes of all imports of an import map, file by file.
pub open spec fn map_outcomes(
    entries: Seq<(String, usize)>,
    disk: Seq<(String, Option<String>)>,
    root: Seq<char>,
    include_std: bool,
    map: Seq<(String, Vec<(String, usize)>)>,
) -> Seq<ImportOutcome>
    decreases map.len(),
{
    if map.len() == 0 {
        seq![]
    } else {
        map_outcomes(entries, disk, root, include_std, map.drop_last()) + entry_outcomes(
            entries,
            disk,
            root,
            include_std,
            map.last(),
        )
    }
}

/// The edges among a list of outcomes.
pub open spec fn outcome_edges(os: Seq<ImportOutcome>) -> Seq<(usize, usize, Import)>
    decreases os.len(),
{
    if os.len() == 0 {
        seq![]
    } else {
        let rest = outcome_edges(os.drop_last());
        match os.last() {
            ImportOutcome::Edge(a, b, w) => rest.push((a, b, w)),
            _ => rest,
        }
    }
}

/// The unresolved imports among a list of outcomes.
pub open spec fn outcome_unresolved(os: Seq<ImportOutcome>) -> Seq<UnresolvedImport>
    decreases os.len(),
{
    if os.len() == 0 {
        seq![]
    } else {
        let rest = outcome_unresolved(os.drop_last());
        match os.last() {
            ImportOutcome::Unresolved(u) => rest.push(u),
            _ => rest,
        }
    }
}

/// The number of outcomes that are not skipped.
pub open spec fn kept_outcomes(os: Seq<ImportOutcome>) -> nat
    decreases os.len(),
{
    if os.len() == 0 {
        0
    } else {
        kept_outcomes(os.drop_last()) + if os.last() is Skipped { 0nat } else { 1nat }
    }
}

/// The number of imports among `imps[0..upto]` that are not standard-library imports
/// left out.
pub open spec fn kept_in(include_std: bool, imps: Seq<(String, usize)>, upto: int) -> nat
    decreases upto,
{
    if upto <= 0 {
        0
    } else {
        kept_in(include_std, imps, upto - 1) + if !include_std && is_std(imps[upto - 1].0@) {
            0nat
        } else {
            1nat
        }
    }
}

/// The number of imports of the import map that are not left out, counting only the
/// files that are nodes of the graph.
pub open spec fn kept_imports(
    entries: Seq<(String, usize)>,
    include_std: bool,
    map: Seq<(String, Vec<(String, usize)>)>,
) -> nat
    decreases map.len(),
{
    if map.len() == 0 {
        0
    } else {
        kept_imports(entries, include_std, map.drop_last()) + match lookup(entries, map.last().0@) {
            Some(_) => kept_in(include_std, map.last().1@, map.last().1@.len() as int),
            None => 0nat,
        }
    }
}

proof fn lemma_outcome_counts(os: Seq<ImportOutcome>)
    ensures
        outcome_edges(os).len() + outcome_unresolved(os).len() == kept_outcomes(os),
    decreases os.len(),
{
    if os.len() > 0 {
        lemma_outcome_counts(os.drop_last());
    }
}

proof fn lemma_outcome_counts_concat(a: Seq<ImportOutcome>, b: Seq<ImportOutcome>)
    ensures
        kept_outcomes(a + b) == kept_outcomes(a) + kept_outcomes(b),
    decreases b.len(),
{
    if b.len() == 0 {
        assert(a + b =~= a);
    } else {
        assert((a + b).drop_last() =~= a + b.drop_last());
        lemma_outcome_counts_concat(a, b.drop_last());
    }
}

proof fn lemma_entry_outcome_count(
    entries: Seq<(String, usize)>,
    disk: Seq<(String, Option<String>)>,
    root: Seq<char>,
    include_std: bool,
    entry: (String, Vec<(String, usize)>),
    src_idx: usize,
    k: int,
)
    requires
        0 <= k <= entry.1@.len(),
    ensures
        kept_outcomes(Seq::new(
            k as nat,
            |j: int| import_outcome(entries, disk, root, include_std, entry.0, src_idx, entry.1@[j].0, entry.1@[j].1),
        )) == kept_in(include_std, entry.1@, k),
    decreases k,
{
    let f = |j: int| import_outcome(entries, disk, root, include_std, entry.0, src_idx, entry.1@[j].0, entry.1@[j].1);
    if k > 0 {
        lemma_entry_outcome_count(entries, disk, root, include_std, entry, src_idx, k - 1);
        assert(Seq::new(k as nat, f).drop_last() =~= Seq::new((k - 1) as nat, f));
    }
}

/// Adding edges accounts for every import it does not leave out: over an import map, the
/// new edges and the new unresolved imports together number exactly the imports, of the
/// files that are nodes of the graph, that are not standard-library imports skipped.
pub proof fn law_add_edges_accounts_for_imports(
    entries: Seq<(String, usize)>,
    disk: Seq<(String, Option<String>)>,
    root: Seq<char>,
    include_std: bool,
    map: Seq<(String, Vec<(String, usize)>)>,
)
    ensures
        outcome_edges(map_outcomes(entries, disk, root, include_std, map)).len() + outcome_unresolved(
            map_outcomes(entries, disk, root, include_std, map),
        ).len() == kept_imports(entries, include_std, map),
    decreases map.len(),
{
    let os = map_outcomes(entries, disk, root, include_std, map);
    lemma_outcome_counts(os);
    if map.len() > 0 {
        law_add_edges_accounts_for_imports(entries, disk, root, include_std, map.drop_last());
        let prev = map_outcomes(entries, disk, root, include_std, map.drop_last());
        let last = entry_outcomes(entries, disk, root, include_std, map.last());
        lemma_outcome_counts(prev);
        lemma_outcome_counts_concat(prev, last);
        match lookup(entries, map.last().0@) {
            Some(src_idx) => {
                lemma_entry_outcome_count(entries, disk, root, include_std, map.last(), src_idx, map.last().1@.len() as int);
            },
            None => {},
        }
    }
}

/// Outcome `o` is that of import `j` of entry `k` of the import map, whose file is a node.
pub open spec fn outcome_of_import(
    entries: Seq<(String, usize)>,
    disk: Seq<(String, Option<String>)>,
    root: Seq<char>,
    include_std: bool,
    map: Seq<(String, Vec<(String, usize)>)>,
    o: ImportOutcome,
    k: int,
    j: int,
) -> bool {
    &&& 0 <= k < map.len()
    &&& 0 <= j < map[k].1@.len()
    &&& lookup(entries, map[k].0@) matches Some(si)
    &&& o == import_outcome(entries, disk, root, include_std, map[k].0, si, map[k].1@[j].0, map[k].1@[j].1)
}

proof fn lemma_map_outcomes_from_imports(
    entries: Seq<(String, usize)>,
    disk: Seq<(String, Option<String>)>,
    root: Seq<char>,
    include_std: bool,
    map: Seq<(String, Vec<(String, usize)>)>,
    i: int,
)
    requires
        0 <= i < map_outcomes(entries, disk, root, include_std, map).len(),
    ensures
        exists|k: int, j: int|
            outcome_of_import(entries, disk, root, include_std, map, map_outcomes(entries, disk, root, include_std, map)[i], k, j),
    decreases map.len(),
{
    let init = map.drop_last();
    let prev = map_outcomes(entries, disk, root, include_std, init);
    let last = entry_outcomes(entries, disk, root, include_std, map.last());
    let os = map_outcomes(entries, disk, root, include_std, map);
    assert(os == prev + last);
    if i < prev.len() {
        lemma_map_outcomes_from_imports(entries, disk, root, include_std, init, i);
        let (k, j) = choose|k: int, j: int| outcome_of_import(entries, disk, root, include_std, init, prev[i], k, j);
        assert(init[k] == map[k]);
        assert(os[i] == prev[i]);
        assert(outcome_of_import(entries, disk, root, include_std, map, os[i], k, j));
    } else {
        let j = i - prev.len();
        let k = map.len() - 1;
        assert(os[i] == last[j]);
        assert(map.last() == map[k]);
        assert(outcome_of_import(entries, disk, root, include_std, map, os[i], k, j));
    }
}

proof fn lemma_edges_are_outcomes(os: Seq<ImportOutcome>, e: int)
    requires
        0 <= e < outcome_edges(os).len(),
    ensures
        exists|i: int| 0 <= i < os.len() && os[i] == ImportOutcome::Edge(outcome_edges(os)[e].0, outcome_edges(os)[e].1, outcome_edges(os)[e].2),
    decreases os.len(),
{
    let rest = outcome_edges(os.drop_last());
    if e < rest.len() {
        lemma_edges_are_outcomes(os.drop_last(), e);
        let i = choose|i: int| 0 <= i < os.drop_last().len() && os.drop_last()[i] == ImportOutcome::Edge(rest[e].0, rest[e].1, rest[e].2);
        assert(os[i] == os.drop_last()[i]);
    } else {
        assert(os[os.len() - 1] == os.last());
    }
}

proof fn lemma_unresolved_are_outcomes(os: Seq<ImportOutcome>, e: int)
    requires
        0 <= e < outcome_unresolved(os).len(),
    ensures
        exists|i: int| 0 <= i < os.len() && os[i] == ImportOutcome::Unresolved(outcome_unresolved(os)[e]),
    decreases os.len(),
{
    let rest = outcome_unresolved(os.drop_last());
    if e < rest.len() {
        lemma_unresolved_are_outcomes(os.drop_last(), e);
        let i = choose|i: int| 0 <= i < os.drop_last().len() && os.drop_last()[i] == ImportOutcome::Unresolved(rest[e]);
        assert(os[i] == os.drop_last()[i]);
    } else {
        assert(os[os.len() - 1] == os.last());
    }
}

/// Every new edge and every new unresolved import comes from an import of a file of the
/// import map that is a node of the graph (keys of other files add nothing): an edge
/// leaves that file's node and carries the import's line; an unresolved import names that
/// file, the import's target and its line.
pub proof fn law_add_edges_follow_imports(
    entries: Seq<(String, usize)>,
    disk: Seq<(String, Option<String>)>,
    root: Seq<char>,
    include_std: bool,
    map: Seq<(String, Vec<(String, usize)>)>,
)
    ensures
        forall|e: int| 0 <= e < outcome_edges(map_outcomes(entries, disk, root, include_std, map)).len() ==> exists|k: int, j: int|
            0 <= k < map.len() && 0 <= j < map[k].1@.len()
                && lookup(entries, map[k].0@) == Some(#[trigger] outcome_edges(map_outcomes(entries, disk, root, include_std, map))[e].0)
                && outcome_edges(map_outcomes(entries, disk, root, include_std, map))[e].2.line == map[k].1@[j].1,
        forall|e: int| 0 <= e < outcome_unresolved(map_outcomes(entries, disk, root, include_std, map)).len() ==> exists|k: int, j: int|
            0 <= k < map.len() && 0 <= j < map[k].1@.len() && lookup(entries, map[k].0@) is Some
                && #[trigger] outcome_unresolved(map_outcomes(entries, disk, root, include_std, map))[e] == (UnresolvedImport {
                    source_file: map[k].0,
                    target: map[k].1@[j].0,
                    line: map[k].1@[j].1,
                }),
{
    let os = map_outcomes(entries, disk, root, include_std, map);
    assert forall|e: int| 0 <= e < outcome_edges(os).len() implies exists|k: int, j: int|
        0 <= k < map.len() && 0 <= j < map[k].1@.len()
            && lookup(entries, map[k].0@) == Some(#[trigger] outcome_edges(os)[e].0)
            && outcome_edges(os)[e].2.line == map[k].1@[j].1 by {
        lemma_edges_are_outcomes(os, e);
        let i = choose|i: int| 0 <= i < os.len() && os[i] == ImportOutcome::Edge(outcome_edges(os)[e].0, outcome_edges(os)[e].1, outcome_edges(os)[e].2);
        lemma_map_outcomes_from_imports(entries, disk, root, include_std, map, i);
        let (k, j) = choose|k: int, j: int| outcome_of_import(entries, disk, root, include_std, map, os[i], k, j);
        assert(0 <= k < map.len() && 0 <= j < map[k].1@.len());
    }
    assert forall|e: int| 0 <= e < outcome_unresolved(os).len() implies exists|k: int, j: int|
        0 <= k < map.len() && 0 <= j < map[k].1@.len() && lookup(entries, map[k].0@) is Some
            && #[trigger] outcome_unresolved(os)[e] == (UnresolvedImport {
                source_file: map[k].0,
                target: map[k].1@[j].0,
                line: map[k].1@[j].1,
            }) by {
        lemma_unresolved_are_outcomes(os, e);
        let i = choose|i: int| 0 <= i < os.len() && os[i] == ImportOutcome::Unresolved(outcome_unresolved(os)[e]);
        lemma_map_outcomes_from_imports(entries, disk, root, include_std, map, i);
        let (k, j) = choose|k: int, j: int| outcome_of_import(entries, disk, root, include_std, map, os[i], k, j);
        assert(0 <= k < map.len() && 0 <= j < map[k].1@.len());
    }
}

/// `a` is a prefix of `b`.
pub open spec fn is_prefix<T>(a: Seq<T>, b: Seq<T>) -> bool {
    a.len() <= b.len() && b.take(a.len() as int) == a
}

proof fn lemma_prefix_trans<T>(a: Seq<T>, b: Seq<T>, c: Seq<T>)
    requires
        is_prefix(a, b),
        is_prefix(b, c),
    ensures
        is_prefix(a, c),
{
    assert(c.take(a.len() as int) =~= b.take(a.len() as int));
}

proof fn lemma_map_outcomes_prefix(
    entries: Seq<(String, usize)>,
    disk: Seq<(String, Option<String>)>,
    root: Seq<char>,
    keep: bool,
    map: Seq<(String, Vec<(String, usize)>)>,
    i: int,
)
    requires
        0 <= i <= map.len(),
    ensures
        is_prefix(
            map_outcomes(entries, disk, root, keep, map.take(i)),
            map_outcomes(entries, disk, root, keep, map),
        ),
    decreases map.len(),
{
    if i < map.len() {
        lemma_map_outcomes_prefix(entries, disk, root, keep, map.drop_last(), i);
        assert(map.drop_last().take(i) =~= map.take(i));
        let a = map_outcomes(entries, disk, root, keep, map.take(i));
        let b = map_outcomes(entries, disk, root, keep, map.drop_last());
        let l = entry_outcomes(entries, disk, root, keep, map.last());
        assert((b + l).take(a.len() as int) =~= b.take(a.len() as int));
    } else {
        assert(map.take(i) =~= map);
        let a = map_outcomes(entries, disk, root, keep, map);
        assert(a.take(a.len() as int) =~= a);
    }
}

proof fn lemma_lookup_bound(entries: Seq<(String, usize)>, p: Seq<char>, n: nat, i: int)
    requires
        forall|j: int| 0 <= j < entries.len() ==> (#[trigger] entries[j]).1 < n,
    ensures
        lookup_from(entries, p, i) matches Some(k) ==> k < n,
    decreases entries.len() - i,
{
    if 0 <= i < entries.len() {
        lemma_lookup_bound(entries, p, n, i + 1);
    }
}

proof fn lemma_edges_monotone(a: Seq<ImportOutcome>, b: Seq<ImportOutcome>)
    requires
        is_prefix(a, b),
    ensures
        outcome_edges(a).len() <= outcome_edges(b).len(),
    decreases b.len(),
{
    if a.len() < b.len() {
        assert(is_prefix(a, b.drop_last())) by {
            assert(b.drop_last().take(a.len() as int) =~= b.take(a.len() as int));
        }
        lemma_edges_monotone(a, b.drop_last());
    } else {
        assert(b.take(a.len() as int) =~= b);
    }
}

/// Builder for constructing dependency graphs from parsed files.
///
/// Handles adding file nodes, resolving import paths (relative and from the project root),
/// creating edges, recording unresolved imports, and leaving out standard library imports
/// unless asked to keep them.
pub struct GraphBuilder {
    graph: DepGraph,
    path_to_node: Vec<(String, usize)>,
    project_root: String,
    include_std: bool,
    unresolved_imports: Vec<UnresolvedImport>,
}

impl GraphBuilder {
    /// The graph built so far.
    pub closed spec fn spec_graph(&self) -> DepGraph {
        self.graph
    }

    /// The (path, node index) entries recorded so far.
    pub closed spec fn entries(&self) -> Seq<(String, usize)> {
        self.path_to_node@
    }

    /// The project root.
    pub closed spec fn root(&self) -> Seq<char> {
        self.project_root@
    }

    /// Whether standard library imports are kept.
    pub closed spec fn keeps_std(&self) -> bool {
        self.include_std
    }

    /// The unresolved imports recorded so far.
    pub closed spec fn unresolved(&self) -> Seq<UnresolvedImport> {
        self.unresolved_imports@
    }

    /// Paths are recorded once each, for nodes of the graph, and every edge joins two nodes.
    pub closed spec fn wf(&self) -> bool {
        &&& forall|i: int, j: int|
            0 <= i < j < self.path_to_node@.len() ==> self.path_to_node@[i].0@
                != self.path_to_node@[j].0@
        &&& forall|i: int|
            0 <= i < self.path_to_node@.len() ==> (#[trigger] self.path_to_node@[i]).1
                < graph_nodes(self.graph).len()
        &&& edges_within(graph_edges(self.graph), graph_nodes(self.graph).len())
    }

    /// Create a new GraphBuilder for a project root; `include_std` keeps standard library
    /// imports.
    pub fn new(project_root: String, include_std: bool) -> (b: Self)
        ensures
            b.wf(),
            graph_nodes(b.spec_graph()) == Seq::<FileNode>::empty(),
            graph_edges(b.spec_graph()) == Seq::<(usize, usize, Import)>::empty(),
            b.entries() == Seq::<(String, usize)>::empty(),
            b.root() == project_root@,
            b.keeps_std() == include_std,
            b.unresolved() == Seq::<UnresolvedImport>::empty(),
    {
        GraphBuilder {
            graph: graph_new(),
            path_to_node: Vec::new(),
            project_root,
            include_std,
            unresolved_imports: Vec::new(),
        }
    }

    /// The graph built so far.
    pub fn graph(&self) -> (g: &DepGraph)
        ensures
            *g == self.spec_graph(),
    {
        &self.graph
    }

    /// The project root.
    pub fn project_root(&self) -> (r: &str)
        ensures
            r@ == self.root(),
    {
        self.project_root.as_str()
    }

    /// Whether standard library imports are kept.
    pub fn include_std(&self) -> (b: bool)
        ensures
            b == self.keeps_std(),
    {
        self.include_std
    }

    /// The node index recorded for a path.
    pub fn node_index(&self, path: &str) -> (r: Option<usize>)
        ensures
            r == lookup(self.entries(), path@),
    {
        let p = chars_of(path);
        self.find_path(&p)
    }

    fn find_path(&self, p: &Vec<char>) -> (r: Option<usize>)
        ensures
            r == lookup(self.entries(), p@),
    {
        let mut i: usize = 0;
        while i < self.path_to_node.len()
            invariant
                i <= self.path_to_node@.len(),
                lookup(self.path_to_node@, p@) == lookup_from(self.path_to_node@, p@, i as int),
            decreases self.path_to_node.len() - i,
        {
            let k = chars_of(self.path_to_node[i].0.as_str());
            if chars_eq(&k, p) {
                return Some(self.path_to_node[i].1);
            }
            i += 1;
        }
        None
    }

    /// Add a file node to the graph and record its path; returns its node index. The
    /// node's layer is determined from its relative path (`Layer::from_path`), whatever
    /// layer it came with. A path added again now refers to the new node.
    pub fn add_file(&mut self, node: FileNode) -> (idx: usize)
        requires
            old(self).wf(),
            graph_nodes(old(self).spec_graph()).len() < u32::MAX,
        ensures
            final(self).wf(),
            idx == graph_nodes(old(self).spec_graph()).len(),
            graph_nodes(final(self).spec_graph()) == graph_nodes(old(self).spec_graph()).push(
                FileNode { layer: layer_of_path(node.relative_path@), ..node },
            ),
            graph_edges(final(self).spec_graph()) == graph_edges(old(self).spec_graph()),
            forall|p: Seq<char>|
                lookup(final(self).entries(), p) == if p == node.path@ {
                    Some(idx)
                } else {
                    lookup(old(self).entries(), p)
                },
            final(self).root() == old(self).root(),
            final(self).keeps_std() == old(self).keeps_std(),
            final(self).unresolved() == old(self).unresolved(),
    {
        let layer = Layer::from_path(node.relative_path.as_str());
        let file = FileNode { layer, ..node };
        let path = file.path.clone();
        let p = chars_of(path.as_str());
        let ghost node_path = file.path;
        let idx = graph_add_node(&mut self.graph, file);
        let ghost g1 = self.graph;
        let mut i: usize = 0;
        while i < self.path_to_node.len()
            invariant
                i <= self.path_to_node@.len(),
                self.path_to_node@ == old(self).path_to_node@,
                self.graph == g1,
                graph_nodes(g1) == graph_nodes(old(self).graph).push(file),
                file == (FileNode { layer: layer_of_path(node.relative_path@), ..node }),
                graph_edges(g1) == graph_edges(old(self).graph),
                idx == graph_nodes(old(self).graph).len(),
                self.project_root == old(self).project_root,
                self.include_std == old(self).include_std,
                self.unresolved_imports == old(self).unresolved_imports,
                old(self).wf(),
                p@ == path@,
                path@ == file.path@,
                forall|j: int| 0 <= j < i ==> self.path_to_node@[j].0@ != p@,
            decreases self.path_to_node.len() - i,
        {
            let k = chars_of(self.path_to_node[i].0.as_str());
            if chars_eq(&k, &p) {
                let ghost before = self.path_to_node@;
                self.path_to_node.set(i, (path, idx));
                proof {
                    assert forall|q: Seq<char>|
                        lookup(self.path_to_node@, q) == if q == p@ {
                            Some(idx)
                        } else {
                            lookup(before, q)
                        } by {
                        Self::lemma_lookup_set(before, self.path_to_node@, q, p@, i as int, idx, 0);
                    }
                }
                return idx;
            }
            i += 1;
        }
        let ghost before = self.path_to_node@;
        self.path_to_node.push((path, idx));
        proof {
            assert forall|q: Seq<char>|
                lookup(self.path_to_node@, q) == if q == p@ {
                    Some(idx)
                } else {
                    lookup(before, q)
                } by {
                Self::lemma_lookup_push(before, self.path_to_node@, q, p@, idx, 0);
            }
        }
        idx
    }

    /// Consume the builder and return the constructed graph.
    pub fn build(self) -> (g: DepGraph)
        ensures
            g == self.spec_graph(),
    {
        self.graph
    }

    /// The unresolved imports recorded so far, without consuming the builder.
    pub fn unresolved_imports(&self) -> (r: &Vec<UnresolvedImport>)
        ensures
            r@ == self.unresolved(),
    {
        &self.unresolved_imports
    }

    /// The paths that an import may refer to, in the order they are tried.
    pub fn import_candidates(&self, source_path: &str, import_target: &str) -> (r: Vec<String>)
        ensures
            views(r@) == candidates(self.root(), source_path@, import_target@),
    {
        let mut r: Vec<String> = Vec::new();
        if is_std_import(import_target) {
            assert(views(r@) =~= seq![]);
            return r;
        }
        let t = chars_of(import_target);
        let root = chars_of(self.project_root.as_str());
        match parent_dir(&chars_of(source_path)) {
            Some(d) => {
                r.push(string_from_chars(&join_path_vec(&d, &t)));
            },
            None => {},
        }
        r.push(string_from_chars(&join_path_vec(&root, &t)));
        assert(views(r@) =~= candidates(self.root(), source_path@, import_target@));
        r
    }

    fn find_on_disk(disk: &Vec<(String, Option<String>)>, p: &Vec<char>) -> (r: Option<usize>)
        ensures
            r is None <==> disk_lookup(disk@, p@) is None,
            r matches Some(k) ==> k < disk@.len() && disk_lookup(disk@, p@) == Some(
                match disk@[k as int].1 {
                    Some(c) => Some(c@),
                    None => None,
                },
            ),
    {
        let mut i: usize = 0;
        while i < disk.len()
            invariant
                i <= disk@.len(),
                disk_lookup(disk@, p@) == disk_lookup_from(disk@, p@, i as int),
            decreases disk.len() - i,
        {
            let k = chars_of(disk[i].0.as_str());
            if chars_eq(&k, p) {
                return Some(i);
            }
            i += 1;
        }
        None
    }

    /// Resolve an import path relative to the source file, then to the project root, using
    /// the graph's own paths and the given disk probe results.
    fn resolve_import(
        &self,
        on_disk: &Vec<(String, Option<String>)>,
        source_path: &str,
        import_target: &str,
    ) -> (r: Option<String>)
        ensures
            r matches Some(s) ==> resolve(self.entries(), on_disk@, self.root(), source_path@, import_target@) == Some(s@),
            r is None ==> resolve(self.entries(), on_disk@, self.root(), source_path@, import_target@) is None,
    {
        let cands = self.import_candidates(source_path, import_target);
        let ghost cs = candidates(self.root(), source_path@, import_target@);
        let mut i: usize = 0;
        while i < cands.len()
            invariant
                i <= cands@.len(),
                views(cands@) == cs,
                resolve(self.entries(), on_disk@, self.root(), source_path@, import_target@)
                    == resolve_from(self.entries(), on_disk@, cs, i as int),
            decreases cands.len() - i,
        {
            let c = chars_of(cands[i].as_str());
            assert(c@ == cs[i as int]);
            if self.find_path(&c).is_some() {
                return Some(cands[i].clone());
            }
            match Self::find_on_disk(on_disk, &c) {
                Some(k) => {
                    return clone_opt_string(&on_disk[k].1);
                },
                None => {},
            }
            i += 1;
        }
        None
    }

    /// Add edges for all imports of `import_map` (each importing file with its import
    /// targets and line numbers, in order).
    ///
    /// Each import is resolved next to its file, then under the project root: to a node of
    /// the graph, or else to a file that `on_disk` lists as existing (with its canonical
    /// path, when it has one). A resolved import whose target is a node becomes an edge;
    /// any other is recorded as unresolved. Standard library imports are skipped unless
    /// the builder keeps them, and files that are not nodes are skipped.
    pub fn add_edges(
        &mut self,
        import_map: &Vec<(String, Vec<(String, usize)>)>,
        on_disk: &Vec<(String, Option<String>)>,
    )
        requires
            old(self).wf(),
            graph_edges(old(self).spec_graph()).len() + outcome_edges(
                map_outcomes(
                    old(self).entries(),
                    on_disk@,
                    old(self).root(),
                    old(self).keeps_std(),
                    import_map@,
                ),
            ).len() <= u32::MAX,
        ensures
            final(self).wf(),
            graph_nodes(final(self).spec_graph()) == graph_nodes(old(self).spec_graph()),
            graph_edges(final(self).spec_graph()) == graph_edges(old(self).spec_graph()) + outcome_edges(
                map_outcomes(
                    old(self).entries(),
                    on_disk@,
                    old(self).root(),
                    old(self).keeps_std(),
                    import_map@,
                ),
            ),
            final(self).unresolved() == old(self).unresolved() + outcome_unresolved(
                map_outcomes(
                    old(self).entries(),
                    on_disk@,
                    old(self).root(),
                    old(self).keeps_std(),
                    import_map@,
                ),
            ),
            final(self).entries() == old(self).entries(),
            final(self).root() == old(self).root(),
            final(self).keeps_std() == old(self).keeps_std(),
    {
        let ghost entries = self.path_to_node@;
        let ghost root = self.project_root@;
        let ghost keep = self.include_std;
        let ghost all = map_outcomes(entries, on_disk@, root, keep, import_map@);
        let ghost mut done: Seq<ImportOutcome> = seq![];
        let mut i: usize = 0;
        assert(all.take(0) =~= done);
        assert(import_map@.take(0) =~= seq![]);
        while i < import_map.len()
            invariant
                i <= import_map@.len(),
                self.wf(),
                self.path_to_node@ == entries,
                self.project_root@ == root,
                self.include_std == keep,
                entries == old(self).path_to_node@,
                root == old(self).project_root@,
                keep == old(self).include_std,
                all == map_outcomes(entries, on_disk@, root, keep, import_map@),
                done == map_outcomes(entries, on_disk@, root, keep, import_map@.take(i as int)),
                graph_nodes(self.graph) == graph_nodes(old(self).graph),
                graph_edges(self.graph) == graph_edges(old(self).graph) + outcome_edges(done),
                self.unresolved_imports@ == old(self).unresolved_imports@ + outcome_unresolved(done),
                graph_edges(old(self).graph).len() + outcome_edges(all).len() <= u32::MAX,
                is_prefix(done, all),
            decreases import_map.len() - i,
        {
            let ghost entry_os = entry_outcomes(entries, on_disk@, root, keep, import_map@[i as int]);
            proof {
                assert(import_map@.take(i + 1).drop_last() =~= import_map@.take(i as int));
                assert(map_outcomes(entries, on_disk@, root, keep, import_map@.take(i + 1))
                    == done + entry_os);
                lemma_map_outcomes_prefix(entries, on_disk@, root, keep, import_map@, i + 1);
            }
            let source = &import_map[i].0;
            let imports = &import_map[i].1;
            match self.find_path(&chars_of(source.as_str())) {
                None => {
                    assert(entry_os =~= seq![]);
                    assert(done + entry_os =~= done);
                    assert(import_map@.take(i + 1).drop_last() =~= import_map@.take(i as int));
                },
                Some(src_idx) => {
                    proof {
                        lemma_lookup_bound(entries, source@, graph_nodes(self.graph).len(), 0);
                    }
                    let ghost start = done;
                    let mut j: usize = 0;
                    while j < imports.len()
                        invariant
                            i < import_map@.len(),
                            src_idx < graph_nodes(self.graph).len(),
                            j <= imports@.len(),
                            self.wf(),
                            self.path_to_node@ == entries,
                            self.project_root@ == root,
                            self.include_std == keep,
                            lookup(entries, source@) == Some(src_idx),
                            entry_os == entry_outcomes(entries, on_disk@, root, keep, import_map@[i as int]),
                            import_map@[i as int].0 == *source,
                            import_map@[i as int].1 == *imports,
                            done == start + entry_os.take(j as int),
                            is_prefix(start + entry_os, all),
                            graph_nodes(self.graph) == graph_nodes(old(self).graph),
                            graph_edges(self.graph) == graph_edges(old(self).graph) + outcome_edges(done),
                            self.unresolved_imports@ == old(self).unresolved_imports@ + outcome_unresolved(done),
                            graph_edges(old(self).graph).len() + outcome_edges(all).len() <= u32::MAX,
                        decreases imports.len() - j,
                    {
                        let target = &imports[j].0;
                        let line = imports[j].1;
                        let ghost o = entry_os[j as int];
                        assert(o == import_outcome(entries, on_disk@, root, keep, *source, src_idx, *target, line));
                        proof {
                            assert(entry_os.take(j + 1) =~= entry_os.take(j as int).push(o));
                            assert(start + entry_os.take(j + 1) =~= (start + entry_os.take(j as int)).push(o));
                            assert(is_prefix(done.push(o), start + entry_os)) by {
                                assert((start + entry_os).take(done.len() + 1int) =~= done.push(o));
                            }
                            lemma_prefix_trans(done.push(o), start + entry_os, all);
                            lemma_edges_monotone(done.push(o), all);
                            assert(done.push(o).drop_last() =~= done);
                        }
                        let ghost edges_before = graph_edges(self.graph);
                        let ghost unres_before = self.unresolved_imports@;
                        if !self.include_std && is_std_import(target.as_str()) {
                            assert(o == ImportOutcome::Skipped);
                        } else {
                            let unresolved = UnresolvedImport {
                                source_file: source.clone(),
                                target: target.clone(),
                                line,
                            };
                            match self.resolve_import(on_disk, source.as_str(), target.as_str()) {
                                Some(target_path) => {
                                    match self.find_path(&chars_of(target_path.as_str())) {
                                        Some(target_idx) => {
                                            proof {
                                                lemma_lookup_bound(entries, target_path@, graph_nodes(self.graph).len(), 0);
                                            }
                                            assert(o == ImportOutcome::Edge(src_idx, target_idx, Import { line }));
                                            graph_add_edge(&mut self.graph, src_idx, target_idx, Import { line });
                                        },
                                        None => {
                                            assert(o == ImportOutcome::Unresolved(unresolved));
                                            self.unresolved_imports.push(unresolved);
                                        },
                                    }
                                },
                                None => {
                                    assert(o == ImportOutcome::Unresolved(unresolved));
                                    self.unresolved_imports.push(unresolved);
                                },
                            }
                        }
                        proof {
                            match o {
                                ImportOutcome::Edge(a, b, w) => {
                                    assert(graph_edges(self.graph) =~= graph_edges(old(self).graph) + outcome_edges(done.push(o)));
                                    assert(self.unresolved_imports@ =~= old(self).unresolved_imports@ + outcome_unresolved(done.push(o)));
                                },
                                ImportOutcome::Unresolved(u) => {
                                    assert(graph_edges(self.graph) =~= graph_edges(old(self).graph) + outcome_edges(done.push(o)));
                                    assert(self.unresolved_imports@ =~= old(self).unresolved_imports@ + outcome_unresolved(done.push(o)));
                                },
                                ImportOutcome::Skipped => {
                                    assert(graph_edges(self.graph) =~= graph_edges(old(self).graph) + outcome_edges(done.push(o)));
                                    assert(self.unresolved_imports@ =~= old(self).unresolved_imports@ + outcome_unresolved(done.push(o)));
                                },
                            }
                            done = done.push(o);
                        }
                        j += 1;
                    }
                    assert(entry_os.take(imports@.len() as int) =~= entry_os);
                },
            }
            i += 1;
        }
        assert(import_map@.take(import_map@.len() as int) =~= import_map@);
    }

    proof fn lemma_lookup_set(
        before: Seq<(String, usize)>,
        after: Seq<(String, usize)>,
        q: Seq<char>,
        p: Seq<char>,
        k: int,
        idx: usize,
        i: int,
    )
        requires
            0 <= k < before.len(),
            0 <= i <= before.len(),
            before[k].0@ == p,
            after.len() == before.len(),
            after[k].0@ == p,
            after[k].1 == idx,
            forall|j: int| 0 <= j < before.len() && j != k ==> after[j] == before[j],
            forall|j: int| 0 <= j < k ==> before[j].0@ != p,
        ensures
            lookup_from(after, q, i) == if q == p && i <= k {
                Some(idx)
            } else {
                lookup_from(before, q, i)
            },
        decreases before.len() - i,
    {
        if i < before.len() {
            Self::lemma_lookup_set(before, after, q, p, k, idx, i + 1);
        }
    }

    proof fn lemma_lookup_push(
        before: Seq<(String, usize)>,
        after: Seq<(String, usize)>,
        q: Seq<char>,
        p: Seq<char>,
        idx: usize,
        i: int,
    )
        requires
            0 <= i <= before.len(),
            after.len() == before.len() + 1,
            after.last().0@ == p,
            after.last().1 == idx,
            forall|j: int| 0 <= j < before.len() ==> after[j] == before[j],
            forall|j: int| 0 <= j < before.len() ==> before[j].0@ != p,
        ensures
            lookup_from(after, q, i) == if q == p {
                Some(idx)
            } else {
                lookup_from(before, q, i)
            },
        decreases before.len() - i,
    {
        if i < before.len() {
            Self::lemma_lookup_push(before, after, q, p, idx, i + 1);
            assert(after[i] == before[i]);
        } else {
            assert(lookup_from(after, q, i + 1) is None);
            assert(lookup_from(before, q, i) is None);
        }
    }
}

} // verus!

verus! {

// ---------------------------------------------------------------------------
// Reachability and strongly connected components
// ---------------------------------------------------------------------------

/// Some edge goes from `u` to `v`.
pub open spec fn has_edge(edges: Seq<(usize, usize, Import)>, u: int, v: int) -> bool {
    exists|e: int| 0 <= e < edges.len() && (#[trigger] edges[e]).0 == u && edges[e].1 == v
}

/// `p` is a nonempty sequence of nodes, each joined to the next by an edge.
pub open spec fn is_walk(edges: Seq<(usize, usize, Import)>, p: Seq<int>) -> bool {
    p.len() >= 1 && forall|i: int| 0 <= i < p.len() - 1 ==> has_edge(edges, #[trigger] p[i], p[i + 1])
}

/// `v` can be reached from `u` by following edges (every node reaches itself).
pub open spec fn reaches(edges: Seq<(usize, usize, Import)>, u: int, v: int) -> bool {
    exists|p: Seq<int>| is_walk(edges, p) && p[0] == u && p.last() == v
}

/// `u` and `v` reach each other.
pub open spec fn mutually_reachable(edges: Seq<(usize, usize, Import)>, u: int, v: int) -> bool {
    reaches(edges, u, v) && reaches(edges, v, u)
}

/// Node `v` is in one of the components.
pub open spec fn in_some_comp(comps: Seq<Seq<usize>>, v: int) -> bool {
    exists|c: int, k: int| 0 <= c < comps.len() && 0 <= k < comps[c].len() && #[trigger] comps[c][k] == v
}

/// `comps` is the decomposition of nodes `0..n` into strongly connected components: every
/// node is in exactly one component, nodes of one component reach each other, and nodes
/// of different components do not.
pub open spec fn is_scc_partition(comps: Seq<Seq<usize>>, n: nat, edges: Seq<(usize, usize, Import)>) -> bool {
    &&& forall|c: int, k: int|
        0 <= c < comps.len() && 0 <= k < comps[c].len() ==> #[trigger] comps[c][k] < n
    &&& forall|v: int| 0 <= v < n ==> #[trigger] in_some_comp(comps, v)
    &&& forall|c1: int, k1: int, c2: int, k2: int|
        0 <= c1 < comps.len() && 0 <= k1 < comps[c1].len() && 0 <= c2 < comps.len() && 0 <= k2
            < comps[c2].len() && #[trigger] comps[c1][k1] == #[trigger] comps[c2][k2] ==> c1 == c2
            && k1 == k2
    &&& forall|c: int, k1: int, k2: int|
        0 <= c < comps.len() && 0 <= k1 < comps[c].len() && 0 <= k2 < comps[c].len()
            ==> mutually_reachable(edges, #[trigger] comps[c][k1] as int, #[trigger] comps[c][k2] as int)
    &&& forall|c1: int, k1: int, c2: int, k2: int|
        0 <= c1 < comps.len() && 0 <= k1 < comps[c1].len() && 0 <= c2 < comps.len() && 0 <= k2
            < comps[c2].len() && c1 != c2 ==> !mutually_reachable(
            edges,
            #[trigger] comps[c1][k1] as int,
            #[trigger] comps[c2][k2] as int,
        )
}

/// The (source, target) pairs of a list of edges.
pub open spec fn edge_pairs(edges: Seq<(usize, usize, Import)>) -> Seq<(usize, usize)> {
    edges.map_values(|e: (usize, usize, Import)| (e.0, e.1))
}

/// The component list that `kosaraju_scc` computes for a graph with `n` nodes and these
/// (source, target) edges, in index order. For a `DepGraph`, built by additions only, the
/// algorithm's walk (nodes in index order, each node's neighbours in reverse order of
/// addition) is fixed by these two.
pub uninterp spec fn kosaraju_components(n: nat, edges: Seq<(usize, usize)>) -> Seq<Seq<usize>>;

/// The strongly connected components of the graph (`petgraph::algo::kosaraju_scc`), as
/// node indices. Its documentation states that each element is a strongly connected
/// component; the order of the components and of the nodes within one is the algorithm's
/// and is given a name here.
#[verifier::external_body]
pub(crate) fn graph_sccs(g: &DepGraph) -> (r: Vec<Vec<usize>>)
    ensures
        r.deep_view() == kosaraju_components(graph_nodes(*g).len(), edge_pairs(graph_edges(*g))),
        is_scc_partition(r.deep_view(), graph_nodes(*g).len(), graph_edges(*g)),
{
    petgraph::algo::kosaraju_scc(&g.graph).into_iter().map(|c| c.into_iter().map(|i| i.index()).collect()).collect()
}

} // verus!
