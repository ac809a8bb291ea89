//! The codebase map: the dependency graph as plain records, ready to be written as JSON.
//!
//! Output format is designed for:
//! - AI agent consumption (LLM-friendly structure)
//! - Graph visualization tools (nodes and edges)
//! - Programmatic analysis (well-defined schema)

use vstd::prelude::*;
use crate::graph::{
    DepGraph, FileNode, Import, Layer, layer_name, graph_nodes, graph_edges, graph_node,
    graph_node_count, graph_edge_count, graph_raw_edges,
};
use crate::text::{str_to_string, clone_strings, clone_opt_string, views};

verus! {

broadcast use vstd::string::group_string_axioms;

/// Top-level structure for codebase dependency maps.
///
/// Represents a complete snapshot of a codebase's import graph with:
/// - All files as nodes with metadata
/// - All imports as edges with line numbers
/// - Summary metadata about the graph
#[derive(Debug, Clone, PartialEq)]
pub struct CodebaseMap {
    /// Schema version (currently "1.0")
    pub version: String,
    /// ISO 8601 timestamp when this map was generated
    pub generated_at: String,
    /// Absolute path to project root
    pub root_path: String,
    /// All file nodes in the dependency graph
    pub nodes: Vec<NodeInfo>,
    /// All import edges between nodes
    pub edges: Vec<EdgeInfo>,
    /// Summary statistics about the graph
    pub metadata: Metadata,
}

/// Node metadata for a single source file.
#[derive(Debug, Clone, PartialEq)]
pub struct NodeInfo {
    /// Unique node ID (the graph's node index)
    pub id: usize,
    /// Absolute path to the file
    pub path: String,
    /// Path relative to project root
    pub relative_path: String,
    /// Architectural layer classification
    pub layer: String,
    /// Distance from entry point (0 = entry)
    pub depth: usize,
    /// Optional summary of file's purpose
    pub summary: Option<String>,
    /// Public exports from this file
    pub exports: Vec<String>,
    /// Lines of code
    pub loc: usize,
}

/// Edge representing an import relationship.
#[derive(Debug, Clone, PartialEq)]
pub struct EdgeInfo {
    /// Source node ID (file doing the importing)
    pub from: usize,
    /// Target node ID (file being imported)
    pub to: usize,
    /// Line number where the import occurs
    pub line: usize,
}

/// Summary metadata about the entire codebase graph.
#[derive(Debug, Clone, PartialEq)]
pub struct Metadata {
    /// Total number of nodes in the graph
    pub node_count: usize,
    /// Total number of import edges
    pub edge_count: usize,
    /// Maximum depth from entry point
    pub max_depth: usize,
    /// List of all layers present in the graph
    pub layers: Vec<String>,
}

/// Convert a layer to its name ("Entry", "App", ...).
pub fn layer_to_string(layer: Layer) -> (r: String)
    ensures
        r@ == layer_name(layer),
{
    layer.to_string()
}

/// The view of an optional string.
pub open spec fn opt_view(o: Option<String>) -> Option<Seq<char>> {
    match o {
        Some(s) => Some(s@),
        None => None,
    }
}

/// `info` describes node `i` of a graph, whose weight is `node`.
pub open spec fn describes_node(info: NodeInfo, i: int, node: FileNode) -> bool {
    &&& info.id == i
    &&& info.path@ == node.path@
    &&& info.relative_path@ == node.relative_path@
    &&& info.layer@ == layer_name(node.layer)
    &&& info.depth == node.depth
    &&& opt_view(info.summary) == opt_view(node.summary)
    &&& views(info.exports@) == views(node.exports@)
    &&& info.loc == node.loc
}

/// `info` describes the edge `e`.
pub open spec fn describes_edge(info: EdgeInfo, e: (usize, usize, Import)) -> bool {
    info.from == e.0 && info.to == e.1 && info.line == e.2.line
}

/// The greatest depth among `nodes[0..upto]`, or 0.
pub open spec fn max_depth_upto(nodes: Seq<FileNode>, upto: int) -> nat
    decreases upto,
{
    if upto <= 0 {
        0
    } else {
        let rest = max_depth_upto(nodes, upto - 1);
        if nodes[upto - 1].depth > rest {
            nodes[upto - 1].depth as nat
        } else {
            rest
        }
    }
}

/// The layers in the alphabetical order of their names.
pub open spec fn layers_by_name() -> Seq<Layer> {
    seq![Layer::App, Layer::Arch, Layer::Core, Layer::Driver, Layer::Entry, Layer::Platform, Layer::Unknown]
}

/// Some node of `nodes` is in layer `l`.
pub open spec fn layer_present(nodes: Seq<FileNode>, l: Layer) -> bool {
    exists|i: int| 0 <= i < nodes.len() && #[trigger] nodes[i].layer == l
}

/// The names of the layers among `layers_by_name()[0..upto]` that some node is in.
pub open spec fn present_names_upto(nodes: Seq<FileNode>, upto: int) -> Seq<Seq<char>>
    decreases upto,
{
    if upto <= 0 {
        seq![]
    } else {
        let rest = present_names_upto(nodes, upto - 1);
        let l = layers_by_name()[upto - 1];
        if layer_present(nodes, l) {
            rest.push(layer_name(l))
        } else {
            rest
        }
    }
}

/// The names of the layers present among `nodes`, each once, in alphabetical order.
pub open spec fn present_layer_names(nodes: Seq<FileNode>) -> Seq<Seq<char>> {
    present_names_upto(nodes, 7)
}

/// The layer at `k` in the alphabetical order of names.
pub fn layer_by_name(k: usize) -> (l: Layer)
    requires
        k < 7,
    ensures
        l == layers_by_name()[k as int],
{
    match k {
        0 => Layer::App,
        1 => Layer::Arch,
        2 => Layer::Core,
        3 => Layer::Driver,
        4 => Layer::Entry,
        5 => Layer::Platform,
        _ => Layer::Unknown,
    }
}

/// `m` is the map of graph `g` with root `root` and timestamp `generated_at`.
pub open spec fn is_map_of(m: CodebaseMap, g: DepGraph, root: Seq<char>, generated_at: Seq<char>) -> bool {
    let nodes = graph_nodes(g);
    let edges = graph_edges(g);
    &&& m.version@ == "1.0"@
    &&& m.generated_at@ == generated_at
    &&& m.root_path@ == root
    &&& m.nodes@.len() == nodes.len()
    &&& forall|i: int| 0 <= i < nodes.len() ==> describes_node(#[trigger] m.nodes@[i], i, nodes[i])
    &&& m.edges@.len() == edges.len()
    &&& forall|k: int| 0 <= k < edges.len() ==> describes_edge(#[trigger] m.edges@[k], edges[k])
    &&& m.metadata.node_count == nodes.len()
    &&& m.metadata.edge_count == edges.len()
    &&& m.metadata.max_depth == max_depth_upto(nodes, nodes.len() as int)
    &&& views(m.metadata.layers@) == present_layer_names(nodes)
}

/// The current time as an RFC 3339 string, read as `chrono::Utc::now()` reads it but
/// without its panic: `SystemTime::now()` since the Unix epoch, made a date by
/// `chrono::DateTime::from_timestamp` and turned into text by `DateTime::to_rfc3339`.
/// `None` when the clock reads before 1970 (where `Utc::now` panics) or beyond what a
/// date can hold. Nothing is stated of the text: it depends on the clock.
#[verifier::external_body]
fn now_rfc3339() -> (r: Option<String>) {
    let since = std::time::SystemTime::now().duration_since(std::time::UNIX_EPOCH).ok()?;
    let secs = i64::try_from(since.as_secs()).ok()?;
    chrono::DateTime::from_timestamp(secs, since.subsec_nanos()).map(|t| t.to_rfc3339())
}

impl CodebaseMap {
    /// Convert a dependency graph into a codebase map, stamped with the given time.
    ///
    /// Node `i` describes graph node `i`, edge `k` describes graph edge `k`; the metadata
    /// holds the counts, the greatest depth (0 for an empty graph) and the names of the
    /// layers present, each once, sorted.
    pub fn from_graph_at(graph: &DepGraph, root_path: &str, generated_at: String) -> (m: Self)
        ensures
            is_map_of(m, *graph, root_path@, generated_at@),
    {
        let ghost nodes = graph_nodes(*graph);
        let n = graph_node_count(graph);
        let mut infos: Vec<NodeInfo> = Vec::new();
        let mut max_depth: usize = 0;
        let mut present: Vec<bool> = Vec::new();
        let mut k: usize = 0;
        while k < 7
            invariant
                k <= 7,
                present@.len() == k,
                forall|j: int| 0 <= j < k ==> !present@[j],
            decreases 7 - k,
        {
            present.push(false);
            k += 1;
        }
        let mut i: usize = 0;
        while i < n
            invariant
                n == nodes.len(),
                nodes == graph_nodes(*graph),
                i <= n,
                infos@.len() == i,
                forall|j: int| 0 <= j < i ==> describes_node(#[trigger] infos@[j], j, nodes[j]),
                max_depth == max_depth_upto(nodes, i as int),
                present@.len() == 7,
                forall|j: int| 0 <= j < 7 ==> (present@[j] <==> exists|q: int| 0 <= q < i && #[trigger] nodes[q].layer == layers_by_name()[j]),
            decreases n - i,
        {
            let node = graph_node(graph, i);
            let info = NodeInfo {
                id: i,
                path: node.path.clone(),
                relative_path: node.relative_path.clone(),
                layer: layer_to_string(node.layer),
                depth: node.depth,
                summary: clone_opt_string(&node.summary),
                exports: clone_strings(&node.exports),
                loc: node.loc,
            };
            infos.push(info);
            if node.depth > max_depth {
                max_depth = node.depth;
            }
            let mut k: usize = 0;
            while k < 7
                invariant
                    k <= 7,
                    i < n,
                    n == nodes.len(),
                    *node == nodes[i as int],
                    present@.len() == 7,
                    forall|j: int| 0 <= j < k ==> (present@[j] <==> exists|q: int| 0 <= q < i + 1 && #[trigger] nodes[q].layer == layers_by_name()[j]),
                    forall|j: int| k <= j < 7 ==> (present@[j] <==> exists|q: int| 0 <= q < i && #[trigger] nodes[q].layer == layers_by_name()[j]),
                decreases 7 - k,
            {
                let l = layer_by_name(k);
                if l == node.layer {
                    present.set(k, true);
                    assert(nodes[i as int].layer == layers_by_name()[k as int]);
                } else {
                    assert forall|q: int| 0 <= q < i + 1 && #[trigger] nodes[q].layer == layers_by_name()[k as int]
                        implies 0 <= q < i by {
                        if q == i {
                            assert(nodes[q].layer == l);
                        }
                    }
                }
                k += 1;
            }
            i += 1;
        }
        let mut layers: Vec<String> = Vec::new();
        let mut k: usize = 0;
        while k < 7
            invariant
                k <= 7,
                n == nodes.len(),
                present@.len() == 7,
                forall|j: int| 0 <= j < 7 ==> (present@[j] <==> exists|q: int| 0 <= q < n && #[trigger] nodes[q].layer == layers_by_name()[j]),
                views(layers@) == present_names_upto(nodes, k as int),
            decreases 7 - k,
        {
            let l = layer_by_name(k);
            let ghost before = views(layers@);
            if present[k] {
                let name = layer_to_string(l);
                layers.push(name);
                assert(views(layers@) =~= before.push(layer_name(l)));
            }
            assert(present@[k as int] == layer_present(nodes, l));
            k += 1;
        }
        let raw = graph_raw_edges(graph);
        let mut edges: Vec<EdgeInfo> = Vec::new();
        let mut e: usize = 0;
        while e < raw.len()
            invariant
                e <= raw@.len(),
                raw@ == graph_edges(*graph),
                edges@.len() == e,
                forall|j: int| 0 <= j < e ==> describes_edge(#[trigger] edges@[j], raw@[j]),
            decreases raw.len() - e,
        {
            let (from, to, w) = raw[e];
            edges.push(EdgeInfo { from, to, line: w.line });
            e += 1;
        }
        CodebaseMap {
            version: str_to_string("1.0"),
            generated_at,
            root_path: str_to_string(root_path),
            nodes: infos,
            edges,
            metadata: Metadata {
                node_count: n,
                edge_count: graph_edge_count(graph),
                max_depth,
                layers,
            },
        }
    }

    /// Convert a dependency graph into a codebase map stamped with the current time; see
    /// `from_graph_at`. When the clock cannot be read as a date (set before 1970), the
    /// time is left empty.
    pub fn from_graph(graph: &DepGraph, root_path: &str) -> (m: Self)
        ensures
            is_map_of(m, *graph, root_path@, m.generated_at@),
    {
        let now = match now_rfc3339() {
            Some(t) => t,
            None => String::new(),
        };
        Self::from_graph_at(graph, root_path, now)
    }
}

} // verus!
