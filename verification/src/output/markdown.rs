//! The data of the CODEBASE.md report: project name, overview, file index, alerts, layer
//! table and a Mermaid diagram of the dependency graph.

use vstd::prelude::*;
use crate::graph::{
    DepGraph, FileNode, Import, Layer, layer_name, graph_nodes, graph_edges, graph_node, graph_node_count,
    graph_edges_directed, graph_raw_edges, in_degree, out_degree, edges_within,
};
use crate::output::json::{CodebaseMap, layers_by_name, layer_to_string};
use crate::graph::analysis::{
    AnalysisResult, Cycle, LayerViolation, NamedEdge, CycleView, ViolationView, triple_views,
    violation_fix_text, cycle_fix_text, cycle_views, violation_views, cycle_fix, cycle_fixes,
    violation_fixes,
};
use crate::paths::{is_sep, file_name_of, file_name_chars};
use crate::text::{
    chars_of, chars_eq, string_from_chars, str_to_string, sub_vec, append_all, join,
    join_strings, views, decimal, usize_to_string, chars_le, chars_le_vec,
};

verus! {

broadcast use vstd::string::group_string_axioms;

// ---------------------------------------------------------------------------
// Paths and names
// ---------------------------------------------------------------------------

/// The project name for a root path: its file name, or "project" when it has none.
pub open spec fn project_name_of(root: Seq<char>) -> Seq<char> {
    match file_name_of(root) {
        Some(n) => n,
        None => "project"@,
    }
}

/// Extract the project name from the root path: its last component (`/` and `\` both
/// separate components), or "project" when there is none.
pub fn extract_project_name(root_path: &str) -> (r: String)
    ensures
        r@ == project_name_of(root_path@),
{
    let p = chars_of(root_path);
    match file_name_chars(&p) {
        Some(n) => string_from_chars(&n),
        None => str_to_string("project"),
    }
}

/// The character that stands for `c` in a Mermaid node id.
pub open spec fn mermaid_char(c: char) -> char {
    if c == '/' || c == '\\' || c == '.' || c == '-' || c == ' ' {
        '_'
    } else {
        c
    }
}

/// A path as a Mermaid node id: `/`, `\`, `.`, `-` and spaces become `_`.
pub open spec fn mermaid_id(p: Seq<char>) -> Seq<char> {
    p.map_values(|c: char| mermaid_char(c))
}

/// Sanitize a file path for use as a Mermaid node ID: `/`, `\`, `.`, `-` and spaces
/// become underscores.
pub fn sanitize_mermaid_id(path: &str) -> (r: String)
    ensures
        r@ == mermaid_id(path@),
{
    let p = chars_of(path);
    let mut out: Vec<char> = Vec::new();
    let mut i: usize = 0;
    while i < p.len()
        invariant
            i <= p@.len(),
            out@ == mermaid_id(p@.take(i as int)),
        decreases p.len() - i,
    {
        let c = p[i];
        let m = if c == '/' || c == '\\' || c == '.' || c == '-' || c == ' ' { '_' } else { c };
        out.push(m);
        i += 1;
        assert(out@ =~= mermaid_id(p@.take(i as int)));
    }
    assert(p@.take(p@.len() as int) =~= p@);
    string_from_chars(&out)
}

/// The name of a path, or the path itself when it has none.
pub open spec fn base_name(p: Seq<char>) -> Seq<char> {
    match file_name_of(p) {
        Some(b) => b,
        None => p,
    }
}

/// A path shortened to `max` characters for display: the whole path if it fits, else its
/// file name if that fits, else the file name's first `max - 3` characters and "...".
pub open spec fn shortened(p: Seq<char>, max: nat) -> Seq<char> {
    if p.len() <= max {
        p
    } else if base_name(p).len() <= max {
        base_name(p)
    } else {
        base_name(p).take(max - 3) + "..."@
    }
}

/// Truncate a path for display, keeping the file name where it fits; lengths count
/// characters. A limit below 3 leaves no room for the ellipsis, so it is refused when
/// neither the path nor its file name fits.
pub fn truncate_filename(path: &str, max_len: usize) -> (r: String)
    requires
        path@.len() <= max_len || base_name(path@).len() <= max_len || max_len >= 3,
    ensures
        r@ == shortened(path@, max_len as nat),
{
    let p = chars_of(path);
    if p.len() <= max_len {
        return string_from_chars(&p);
    }
    let base = match file_name_chars(&p) {
        Some(b) => b,
        None => p,
    };
    if base.len() <= max_len {
        return string_from_chars(&base);
    }
    let mut cut = sub_vec(&base, 0, max_len - 3);
    let dots = chars_of("...");
    append_all(&mut cut, &dots);
    assert(cut@ =~= base@.take(max_len - 3) + "..."@);
    string_from_chars(&cut)
}

/// The Mermaid style class of a layer.
pub open spec fn layer_class(layer: Layer) -> Seq<char> {
    match layer {
        Layer::Entry => "entry"@,
        Layer::App => "app"@,
        Layer::Core => "core"@,
        Layer::Platform => "platform"@,
        Layer::Driver => "driver"@,
        Layer::Arch => "arch"@,
        Layer::Unknown => "arch"@,
    }
}

/// Map a layer to its Mermaid style class (Unknown shares Arch's).
pub fn layer_to_class(layer: Layer) -> (r: &'static str)
    ensures
        r@ == layer_class(layer),
{
    match layer {
        Layer::Entry => "entry",
        Layer::App => "app",
        Layer::Core => "core",
        Layer::Platform => "platform",
        Layer::Driver => "driver",
        Layer::Arch => "arch",
        Layer::Unknown => "arch",
    }
}

// ---------------------------------------------------------------------------
// Layer table
// ---------------------------------------------------------------------------

/// Layer definition with description.
#[derive(Debug)]
pub struct LayerInfo {
    pub name: String,
    pub description: String,
    pub precedence: u8,
}

/// The layer table: name, description and precedence of each layer, top to bottom.
pub open spec fn layer_definitions() -> Seq<(Seq<char>, Seq<char>, u8)> {
    seq![
        ("Entry"@, "Application entry point (main.zig)"@, 0u8),
        ("App"@, "Application layer (shell/*, init.zig)"@, 1u8),
        ("Core"@, "Core functionality (kernel/*, memory/*)"@, 2u8),
        ("Platform"@, "Platform abstraction (platform/*, exceptions.zig)"@, 3u8),
        ("Driver"@, "Device drivers (drivers/*)"@, 4u8),
        ("Arch"@, "Architecture-specific code (arch/*)"@, 5u8),
    ]
}

/// The view of a layer table row.
pub open spec fn layer_info_view(i: LayerInfo) -> (Seq<char>, Seq<char>, u8) {
    (i.name@, i.description@, i.precedence)
}

fn layer_row(name: &str, description: &str, precedence: u8) -> (r: LayerInfo)
    ensures
        layer_info_view(r) == (name@, description@, precedence),
{
    LayerInfo { name: str_to_string(name), description: str_to_string(description), precedence }
}

/// Build the layer table; see `layer_definitions`.
pub fn build_layer_info() -> (r: Vec<LayerInfo>)
    ensures
        r@.map_values(|i: LayerInfo| layer_info_view(i)) == layer_definitions(),
{
    let mut r: Vec<LayerInfo> = Vec::new();
    r.push(layer_row("Entry", "Application entry point (main.zig)", 0));
    r.push(layer_row("App", "Application layer (shell/*, init.zig)", 1));
    r.push(layer_row("Core", "Core functionality (kernel/*, memory/*)", 2));
    r.push(layer_row("Platform", "Platform abstraction (platform/*, exceptions.zig)", 3));
    r.push(layer_row("Driver", "Device drivers (drivers/*)", 4));
    r.push(layer_row("Arch", "Architecture-specific code (arch/*)", 5));
    assert(r@.map_values(|i: LayerInfo| layer_info_view(i)) =~= layer_definitions());
    r
}

// ---------------------------------------------------------------------------
// Alerts
// ---------------------------------------------------------------------------

/// Alert for cycles or violations.
#[derive(Debug, Clone)]
pub struct Alert {
    /// Alert severity: "error" or "warning"
    pub severity: String,
    /// Alert type: "cycle" or "violation"
    pub alert_type: String,
    /// Human-readable message
    pub message: String,
    /// Affected files with line numbers
    pub details: Vec<String>,
    /// Fix suggestion
    pub fix: String,
}

/// The text of an alert.
pub struct AlertView {
    pub severity: Seq<char>,
    pub alert_type: Seq<char>,
    pub message: Seq<char>,
    pub details: Seq<Seq<char>>,
    pub fix: Seq<char>,
}

impl View for Alert {
    type V = AlertView;

    open spec fn view(&self) -> AlertView {
        AlertView {
            severity: self.severity@,
            alert_type: self.alert_type@,
            message: self.message@,
            details: views(self.details@),
            fix: self.fix@,
        }
    }
}

/// The detail line of a cycle edge: `from:line imports to`.
pub open spec fn edge_detail(e: NamedEdge) -> Seq<char> {
    e.0 + ":"@ + decimal(e.2 as nat) + " imports "@ + e.1
}

/// The alert for a cycle: an error naming its files in order, one detail per edge, and
/// the fix of removing its first import (or of extracting shared types, when it has no
/// edge).
pub open spec fn cycle_alert(c: CycleView) -> AlertView {
    AlertView {
        severity: "error"@,
        alert_type: "cycle"@,
        message: "Circular dependency: "@ + join(c.nodes, " -> "@),
        details: c.edges.map_values(|e: NamedEdge| edge_detail(e)),
        fix: if c.edges.len() > 0 {
            cycle_fix_text(c.edges[0].0, c.edges[0].1, c.edges[0].2)
        } else {
            "Extract shared types to a common module"@
        },
    }
}

/// The alert for a layer violation: a warning naming both files and layers, the place of
/// the import, and the violation's own fix.
pub open spec fn violation_alert(v: ViolationView) -> AlertView {
    AlertView {
        severity: "warning"@,
        alert_type: "violation"@,
        message: "Layer violation: "@ + v.file + " ("@ + layer_name(v.from_layer) + ") imports "@
            + v.imports + " ("@ + layer_name(v.to_layer) + ")"@,
        details: seq![v.file + ":"@ + decimal(v.line as nat)],
        fix: violation_fix_text(v.file, v.to_layer, v.imports),
    }
}

/// The alerts of an analysis: one per cycle, then one per violation.
pub open spec fn alerts_of(cycles: Seq<CycleView>, violations: Seq<ViolationView>) -> Seq<AlertView> {
    cycles.map_values(|c: CycleView| cycle_alert(c)) + violations.map_values(|v: ViolationView| violation_alert(v))
}

/// The fixes of a list of alerts, in order.
pub open spec fn alert_fixes(a: Seq<AlertView>) -> Seq<Seq<char>> {
    a.map_values(|x: AlertView| x.fix)
}

proof fn lemma_cycle_alert_fixes(cs: Seq<Cycle>)
    requires
        forall|i: int| 0 <= i < cs.len() ==> (#[trigger] cs[i]).edges@.len() > 0,
    ensures
        alert_fixes(cycle_views(cs).map_values(|c: CycleView| cycle_alert(c))) == cycle_fixes(cs),
    decreases cs.len(),
{
    if cs.len() > 0 {
        let init = cs.drop_last();
        assert forall|i: int| 0 <= i < init.len() implies (#[trigger] init[i]).edges@.len() > 0 by {
            assert(init[i] == cs[i]);
        }
        lemma_cycle_alert_fixes(init);
        let c = cs.last();
        assert(cs[cs.len() - 1].edges@.len() > 0);
        assert(c@.edges[0] == (c.edges@[0].0@, c.edges@[0].1@, c.edges@[0].2));
        assert(alert_fixes(cycle_views(cs).map_values(|c: CycleView| cycle_alert(c)))
            =~= alert_fixes(cycle_views(init).map_values(|c: CycleView| cycle_alert(c))).push(cycle_alert(c@).fix));
    }
}

/// Each alert's fix is the analysis's own suggestion: when every cycle has an edge (as
/// every cycle found in a graph does), the fixes of the alerts, in order, are
/// `fix_suggestions()`.
pub proof fn law_alert_fixes_are_the_suggestions(cycles: Seq<Cycle>, violations: Seq<LayerViolation>)
    requires
        forall|i: int| 0 <= i < cycles.len() ==> (#[trigger] cycles[i]).edges@.len() > 0,
    ensures
        alert_fixes(alerts_of(cycle_views(cycles), violation_views(violations)))
            == cycle_fixes(cycles) + violation_fixes(violations),
{
    lemma_cycle_alert_fixes(cycles);
    assert(alert_fixes(violation_views(violations).map_values(|v: ViolationView| violation_alert(v)))
        =~= violation_fixes(violations));
    assert(alert_fixes(alerts_of(cycle_views(cycles), violation_views(violations)))
        =~= alert_fixes(cycle_views(cycles).map_values(|c: CycleView| cycle_alert(c)))
            + alert_fixes(violation_views(violations).map_values(|v: ViolationView| violation_alert(v))));
}

/// The views of a list of alerts.
pub open spec fn alert_views(v: Seq<Alert>) -> Seq<AlertView> {
    v.map_values(|a: Alert| a@)
}

fn edge_detail_string(from: &String, to: &String, line: usize) -> (s: String)
    ensures
        s@ == edge_detail((from@, to@, line)),
{
    let mut s = from.clone();
    s.append(":");
    s.append(usize_to_string(line).as_str());
    s.append(" imports ");
    s.append(to.as_str());
    s
}

fn cycle_alert_of(c: &Cycle) -> (a: Alert)
    ensures
        a@ == cycle_alert(c@),
{
    let mut details: Vec<String> = Vec::new();
    let ghost ev = triple_views(c.edges@);
    let mut k: usize = 0;
    while k < c.edges.len()
        invariant
            k <= c.edges@.len(),
            ev == triple_views(c.edges@),
            views(details@) == ev.take(k as int).map_values(|e: NamedEdge| edge_detail(e)),
        decreases c.edges.len() - k,
    {
        let e = &c.edges[k];
        let d = edge_detail_string(&e.0, &e.1, e.2);
        let ghost before = views(details@);
        details.push(d);
        assert(views(details@) =~= before.push(d@));
        assert(ev[k as int] == (e.0@, e.1@, e.2));
        assert(ev.take(k + 1).map_values(|e: NamedEdge| edge_detail(e)) =~= ev.take(k as int).map_values(|e: NamedEdge| edge_detail(e)).push(edge_detail(ev[k as int])));
        k += 1;
    }
    assert(ev.take(c.edges@.len() as int) =~= ev);
    let fix = if c.edges.len() > 0 {
        let e = &c.edges[0];
        cycle_fix(&e.0, &e.1, e.2)
    } else {
        str_to_string("Extract shared types to a common module")
    };
    let mut message = str_to_string("Circular dependency: ");
    let joined = join_strings(&c.nodes, " -> ");
    message.append(joined.as_str());
    Alert { severity: str_to_string("error"), alert_type: str_to_string("cycle"), message, details, fix }
}

fn violation_alert_of(v: &LayerViolation) -> (a: Alert)
    ensures
        a@ == violation_alert(v@),
{
    let mut message = str_to_string("Layer violation: ");
    message.append(v.file.as_str());
    message.append(" (");
    message.append(v.from_layer.name());
    message.append(") imports ");
    message.append(v.imports.as_str());
    message.append(" (");
    message.append(v.to_layer.name());
    message.append(")");
    let mut detail = v.file.clone();
    detail.append(":");
    detail.append(usize_to_string(v.line).as_str());
    let mut details: Vec<String> = Vec::new();
    details.push(detail);
    assert(views(details@) =~= seq![v.file@ + ":"@ + decimal(v.line as nat)]);
    Alert {
        severity: str_to_string("warning"),
        alert_type: str_to_string("violation"),
        message,
        details,
        fix: v.fix_suggestion(),
    }
}

/// Build the alerts of an analysis: one error per cycle, then one warning per layer
/// violation; see `cycle_alert` and `violation_alert`.
pub fn build_alerts(analysis: &AnalysisResult) -> (r: Vec<Alert>)
    ensures
        alert_views(r@) == alerts_of(cycle_views(analysis.cycles@), violation_views(analysis.violations@)),
{
    let ghost cs = cycle_views(analysis.cycles@);
    let ghost vs = violation_views(analysis.violations@);
    let mut r: Vec<Alert> = Vec::new();
    let mut i: usize = 0;
    while i < analysis.cycles.len()
        invariant
            i <= analysis.cycles@.len(),
            cs == cycle_views(analysis.cycles@),
            alert_views(r@) == cs.take(i as int).map_values(|c: CycleView| cycle_alert(c)),
        decreases analysis.cycles.len() - i,
    {
        let a = cycle_alert_of(&analysis.cycles[i]);
        let ghost before = alert_views(r@);
        r.push(a);
        assert(alert_views(r@) =~= before.push(a@));
        assert(cs.take(i + 1).map_values(|c: CycleView| cycle_alert(c)) =~= cs.take(i as int).map_values(|c: CycleView| cycle_alert(c)).push(cycle_alert(cs[i as int])));
        i += 1;
    }
    assert(cs.take(analysis.cycles@.len() as int) =~= cs);
    let ghost base = alert_views(r@);
    let mut j: usize = 0;
    while j < analysis.violations.len()
        invariant
            j <= analysis.violations@.len(),
            vs == violation_views(analysis.violations@),
            base == cs.map_values(|c: CycleView| cycle_alert(c)),
            alert_views(r@) == base + vs.take(j as int).map_values(|v: ViolationView| violation_alert(v)),
        decreases analysis.violations.len() - j,
    {
        let a = violation_alert_of(&analysis.violations[j]);
        let ghost before = alert_views(r@);
        r.push(a);
        assert(alert_views(r@) =~= before.push(a@));
        assert(vs.take(j + 1).map_values(|v: ViolationView| violation_alert(v)) =~= vs.take(j as int).map_values(|v: ViolationView| violation_alert(v)).push(violation_alert(vs[j as int])));
        assert(base + vs.take(j + 1).map_values(|v: ViolationView| violation_alert(v)) =~= (base + vs.take(j as int).map_values(|v: ViolationView| violation_alert(v))).push(violation_alert(vs[j as int])));
        j += 1;
    }
    assert(vs.take(analysis.violations@.len() as int) =~= vs);
    r
}

// ---------------------------------------------------------------------------
// Cycle membership
// ---------------------------------------------------------------------------

/// The file `name` is one of the files of some cycle.
pub open spec fn in_cycles(cycles: Seq<CycleView>, name: Seq<char>) -> bool {
    exists|i: int, k: int| 0 <= i < cycles.len() && 0 <= k < cycles[i].nodes.len() && #[trigger] cycles[i].nodes[k] == name
}

/// Whether the file `name` is one of the files of some cycle.
fn in_some_cycle(cycles: &Vec<Cycle>, name: &String) -> (b: bool)
    ensures
        b == in_cycles(cycle_views(cycles@), name@),
{
    let ghost cs = cycle_views(cycles@);
    let mut i: usize = 0;
    while i < cycles.len()
        invariant
            i <= cycles@.len(),
            cs == cycle_views(cycles@),
            forall|a: int, k: int| 0 <= a < i && 0 <= k < cs[a].nodes.len() ==> #[trigger] cs[a].nodes[k] != name@,
        decreases cycles.len() - i,
    {
        let nodes = &cycles[i].nodes;
        assert(cs[i as int].nodes == nodes@.map_values(|s: String| s@));
        let mut k: usize = 0;
        while k < nodes.len()
            invariant
                k <= nodes@.len(),
                i < cs.len(),
                cs == cycle_views(cycles@),
                cs[i as int].nodes == nodes@.map_values(|s: String| s@),
                forall|j: int| 0 <= j < k ==> #[trigger] cs[i as int].nodes[j] != name@,
            decreases nodes.len() - k,
        {
            if nodes[k] == *name {
                assert(cs[i as int].nodes.len() == nodes@.len());
                assert(cs[i as int].nodes[k as int] == name@);
                assert(in_cycles(cs, name@));
                return true;
            }
            k += 1;
        }
        i += 1;
    }
    false
}

// ---------------------------------------------------------------------------
// Overview
// ---------------------------------------------------------------------------

/// Count of files in a layer.
#[derive(Debug)]
pub struct LayerCount {
    pub layer: String,
    pub count: usize,
}

/// Overview statistics for the codebase.
#[derive(Debug)]
pub struct Overview {
    /// Total file count
    pub file_count: usize,
    /// Total lines of code
    pub total_loc: usize,
    /// Maximum depth from entry points
    pub max_depth: usize,
    /// Number of entry points
    pub entry_point_count: usize,
    /// Entry point file names
    pub entry_points: Vec<String>,
    /// Number of cycles detected
    pub cycle_count: usize,
    /// Number of layer violations
    pub violation_count: usize,
    /// Files per layer
    pub layer_counts: Vec<LayerCount>,
}

/// The total lines of code of `nodes[0..upto]`.
pub open spec fn loc_sum(nodes: Seq<FileNode>, upto: int) -> nat
    decreases upto,
{
    if upto <= 0 {
        0
    } else {
        loc_sum(nodes, upto - 1) + nodes[upto - 1].loc as nat
    }
}

/// The number of nodes among `nodes[0..upto]` in layer `l`.
pub open spec fn layer_count(nodes: Seq<FileNode>, l: Layer, upto: int) -> nat
    decreases upto,
{
    if upto <= 0 {
        0
    } else {
        layer_count(nodes, l, upto - 1) + if nodes[upto - 1].layer == l {
            1nat
        } else {
            0nat
        }
    }
}

/// The (layer name, file count) of the layers among `layers_by_name()[0..upto]` that hold
/// at least one file.
pub open spec fn layer_counts_upto(nodes: Seq<FileNode>, upto: int) -> Seq<(Seq<char>, nat)>
    decreases upto,
{
    if upto <= 0 {
        seq![]
    } else {
        let rest = layer_counts_upto(nodes, upto - 1);
        let l = layers_by_name()[upto - 1];
        let c = layer_count(nodes, l, nodes.len() as int);
        if c > 0 {
            rest.push((layer_name(l), c))
        } else {
            rest
        }
    }
}

/// The files per layer, for the layers that hold files, sorted by layer name.
pub open spec fn layer_counts_of(nodes: Seq<FileNode>) -> Seq<(Seq<char>, nat)> {
    layer_counts_upto(nodes, 7)
}

/// The view of a list of layer counts.
pub open spec fn layer_count_views(v: Seq<LayerCount>) -> Seq<(Seq<char>, nat)> {
    v.map_values(|c: LayerCount| (c.layer@, c.count as nat))
}

proof fn lemma_layer_count_bound(nodes: Seq<FileNode>, l: Layer, upto: int)
    requires
        0 <= upto <= nodes.len(),
    ensures
        layer_count(nodes, l, upto) <= upto,
    decreases upto,
{
    if upto > 0 {
        lemma_layer_count_bound(nodes, l, upto - 1);
    }
}

/// The sum of the counts of a list of (name, count) pairs.
pub open spec fn count_total(s: Seq<(Seq<char>, nat)>) -> nat
    decreases s.len(),
{
    if s.len() == 0 {
        0
    } else {
        count_total(s.drop_last()) + s.last().1
    }
}

/// The sum over `layers_by_name()[0..m]` of the files in each layer.
pub open spec fn layer_sum_upto(nodes: Seq<FileNode>, m: int) -> nat
    decreases m,
{
    if m <= 0 {
        0
    } else {
        layer_sum_upto(nodes, m - 1) + layer_count(nodes, layers_by_name()[m - 1], nodes.len() as int)
    }
}

proof fn lemma_counts_total(nodes: Seq<FileNode>, m: int)
    requires
        0 <= m <= 7,
    ensures
        count_total(layer_counts_upto(nodes, m)) == layer_sum_upto(nodes, m),
    decreases m,
{
    if m > 0 {
        lemma_counts_total(nodes, m - 1);
        let rest = layer_counts_upto(nodes, m - 1);
        let l = layers_by_name()[m - 1];
        let c = layer_count(nodes, l, nodes.len() as int);
        if c > 0 {
            assert(rest.push((layer_name(l), c)).drop_last() =~= rest);
        }
    }
}

proof fn lemma_every_file_in_one_layer(nodes: Seq<FileNode>, k: int)
    requires
        0 <= k <= nodes.len(),
    ensures
        layer_count(nodes, Layer::App, k) + layer_count(nodes, Layer::Arch, k) + layer_count(nodes, Layer::Core, k)
            + layer_count(nodes, Layer::Driver, k) + layer_count(nodes, Layer::Entry, k) + layer_count(
            nodes,
            Layer::Platform,
            k,
        ) + layer_count(nodes, Layer::Unknown, k) == k,
    decreases k,
{
    if k > 0 {
        lemma_every_file_in_one_layer(nodes, k - 1);
    }
}

/// Counting a file more adds one to its own layer's count and nothing to the others'.
pub proof fn law_layer_count_of_one_more_file(nodes: Seq<FileNode>, f: FileNode, l: Layer)
    ensures
        layer_count(nodes.push(f), l, nodes.len() + 1int) == layer_count(nodes, l, nodes.len() as int) + if f.layer == l {
            1nat
        } else {
            0nat
        },
{
    lemma_layer_count_prefix(nodes, f, l, nodes.len() as int);
}

proof fn lemma_layer_count_prefix(nodes: Seq<FileNode>, f: FileNode, l: Layer, k: int)
    requires
        0 <= k <= nodes.len(),
    ensures
        layer_count(nodes.push(f), l, k) == layer_count(nodes, l, k),
    decreases k,
{
    if k > 0 {
        lemma_layer_count_prefix(nodes, f, l, k - 1);
        assert(nodes.push(f)[k - 1] == nodes[k - 1]);
    }
}

/// The files per layer account for every file exactly once: the counts of the layers that
/// hold files add up to the number of files.
pub proof fn law_layer_counts_cover_files(nodes: Seq<FileNode>)
    ensures
        count_total(layer_counts_of(nodes)) == nodes.len(),
{
    lemma_counts_total(nodes, 7);
    lemma_every_file_in_one_layer(nodes, nodes.len() as int);
    reveal_with_fuel(layer_sum_upto, 8);
}

proof fn lemma_counts_upto_has(nodes: Seq<FileNode>, m: int, j: int)
    requires
        0 <= j < m <= 7,
        layer_count(nodes, layers_by_name()[j], nodes.len() as int) > 0,
    ensures
        layer_counts_upto(nodes, m).contains(
            (layer_name(layers_by_name()[j]), layer_count(nodes, layers_by_name()[j], nodes.len() as int)),
        ),
    decreases m,
{
    let x = (layer_name(layers_by_name()[j]), layer_count(nodes, layers_by_name()[j], nodes.len() as int));
    let rest = layer_counts_upto(nodes, m - 1);
    let all = layer_counts_upto(nodes, m);
    if j < m - 1 {
        lemma_counts_upto_has(nodes, m - 1, j);
        let q = choose|q: int| 0 <= q < rest.len() && rest[q] == x;
        assert(all[q] == x);
    } else {
        assert(all[rest.len() as int] == x);
    }
}

/// Every layer that holds files is listed with the number of files in it.
pub proof fn law_layer_counts_list_every_layer(nodes: Seq<FileNode>, l: Layer)
    requires
        layer_count(nodes, l, nodes.len() as int) > 0,
    ensures
        layer_counts_of(nodes).contains((layer_name(l), layer_count(nodes, l, nodes.len() as int))),
{
    let j: int = match l {
        Layer::App => 0,
        Layer::Arch => 1,
        Layer::Core => 2,
        Layer::Driver => 3,
        Layer::Entry => 4,
        Layer::Platform => 5,
        Layer::Unknown => 6,
    };
    assert(layers_by_name()[j] == l);
    lemma_counts_upto_has(nodes, 7, j);
}

/// A list of no files has no file in any layer.
pub proof fn law_no_files_no_layer(l: Layer)
    ensures
        layer_count(Seq::<FileNode>::empty(), l, 0) == 0,
{
}

/// The overview's files per layer add up to its file count taken from the graph.
pub proof fn law_overview_counts_every_file(o: Overview, g: DepGraph, a: AnalysisResult, m: CodebaseMap)
    requires
        is_overview_of(o, g, a, m),
    ensures
        count_total(layer_count_views(o.layer_counts@)) == graph_nodes(g).len(),
{
    law_layer_counts_cover_files(graph_nodes(g));
}

/// `o` is the overview of graph `g` with analysis `a` and map `m`.
pub open spec fn is_overview_of(o: Overview, g: DepGraph, a: AnalysisResult, m: CodebaseMap) -> bool {
    &&& o.file_count == m.metadata.node_count
    &&& o.total_loc == loc_sum(graph_nodes(g), graph_nodes(g).len() as int)
    &&& o.max_depth == a.max_depth
    &&& o.entry_point_count == a.entry_points@.len()
    &&& views(o.entry_points@) == views(a.entry_points@)
    &&& o.cycle_count == a.cycles@.len()
    &&& o.violation_count == a.violations@.len()
    &&& layer_count_views(o.layer_counts@) == layer_counts_of(graph_nodes(g))
}

/// Build the overview: file count (from the map's metadata), total lines of code (the
/// total must fit in a `usize`), greatest depth, entry points, cycle and violation counts,
/// and the files per layer sorted by layer name.
pub fn build_overview(graph: &DepGraph, analysis: &AnalysisResult, codemap: &CodebaseMap) -> (o: Overview)
    requires
        loc_sum(graph_nodes(*graph), graph_nodes(*graph).len() as int) <= usize::MAX,
    ensures
        is_overview_of(o, *graph, *analysis, *codemap),
{
    let ghost nodes = graph_nodes(*graph);
    let n = graph_node_count(graph);
    let mut total: usize = 0;
    let mut counts: Vec<usize> = Vec::new();
    let mut k: usize = 0;
    while k < 7
        invariant
            k <= 7,
            counts@.len() == k,
            forall|j: int| 0 <= j < k ==> counts@[j] == 0,
        decreases 7 - k,
    {
        counts.push(0);
        k += 1;
    }
    let mut i: usize = 0;
    while i < n
        invariant
            n == nodes.len(),
            nodes == graph_nodes(*graph),
            i <= n,
            loc_sum(nodes, n as int) <= usize::MAX,
            total == loc_sum(nodes, i as int),
            counts@.len() == 7,
            forall|j: int| 0 <= j < 7 ==> #[trigger] counts@[j] == layer_count(nodes, layers_by_name()[j], i as int),
        decreases n - i,
    {
        let node = graph_node(graph, i);
        proof {
            assert(loc_sum(nodes, i + 1) == loc_sum(nodes, i as int) + nodes[i as int].loc);
            // loc_sum never decreases, so the running total stays below the final one
            assert forall|a: int, b: int| 0 <= a <= b <= n implies #[trigger] loc_sum(nodes, a) <= #[trigger] loc_sum(nodes, b) by {
                lemma_loc_sum_mono(nodes, a, b);
            }
            assert(loc_sum(nodes, i + 1) <= loc_sum(nodes, n as int));
        }
        total = total + node.loc;
        let mut k: usize = 0;
        while k < 7
            invariant
                k <= 7,
                i < n,
                n == nodes.len(),
                *node == nodes[i as int],
                counts@.len() == 7,
                forall|j: int| 0 <= j < k ==> #[trigger] counts@[j] == layer_count(nodes, layers_by_name()[j], i + 1),
                forall|j: int| k <= j < 7 ==> #[trigger] counts@[j] == layer_count(nodes, layers_by_name()[j], i as int),
            decreases 7 - k,
        {
            let l = crate::output::json::layer_by_name(k);
            proof {
                lemma_layer_count_bound(nodes, l, i as int);
            }
            if l == node.layer {
                let c = counts[k];
                counts.set(k, c + 1);
            }
            k += 1;
        }
        i += 1;
    }
    let mut layer_counts: Vec<LayerCount> = Vec::new();
    let mut k: usize = 0;
    while k < 7
        invariant
            k <= 7,
            n == nodes.len(),
            counts@.len() == 7,
            forall|j: int| 0 <= j < 7 ==> #[trigger] counts@[j] == layer_count(nodes, layers_by_name()[j], n as int),
            layer_count_views(layer_counts@) == layer_counts_upto(nodes, k as int),
        decreases 7 - k,
    {
        let l = crate::output::json::layer_by_name(k);
        let c = counts[k];
        let ghost before = layer_count_views(layer_counts@);
        if c > 0 {
            let lc = LayerCount { layer: layer_to_string(l), count: c };
            layer_counts.push(lc);
            assert(layer_count_views(layer_counts@) =~= before.push((layer_name(l), c as nat)));
        }
        k += 1;
    }
    Overview {
        file_count: codemap.metadata.node_count,
        total_loc: total,
        max_depth: analysis.max_depth,
        entry_point_count: analysis.entry_points.len(),
        entry_points: crate::text::clone_strings(&analysis.entry_points),
        cycle_count: analysis.cycles.len(),
        violation_count: analysis.violations.len(),
        layer_counts,
    }
}

proof fn lemma_loc_sum_mono(nodes: Seq<FileNode>, a: int, b: int)
    requires
        0 <= a <= b <= nodes.len(),
    ensures
        loc_sum(nodes, a) <= loc_sum(nodes, b),
    decreases b - a,
{
    if a < b {
        lemma_loc_sum_mono(nodes, a, b - 1);
    }
}

// ---------------------------------------------------------------------------
// File index
// ---------------------------------------------------------------------------

/// File entry for the index table.
#[derive(Debug)]
pub struct FileEntry {
    pub path: String,
    pub layer: String,
    pub depth: usize,
    pub loc: usize,
    pub imports: usize,
    pub imported_by: usize,
    pub in_cycle: bool,
}

/// The values of a file entry.
pub struct FileEntryView {
    pub path: Seq<char>,
    pub layer: Seq<char>,
    pub depth: usize,
    pub loc: usize,
    pub imports: nat,
    pub imported_by: nat,
    pub in_cycle: bool,
}

/// The view of a file entry.
pub open spec fn entry_view(e: FileEntry) -> FileEntryView {
    FileEntryView {
        path: e.path@,
        layer: e.layer@,
        depth: e.depth,
        loc: e.loc,
        imports: e.imports as nat,
        imported_by: e.imported_by as nat,
        in_cycle: e.in_cycle,
    }
}

/// The views of a list of file entries.
pub open spec fn entry_views(v: Seq<FileEntry>) -> Seq<FileEntryView> {
    v.map_values(|e: FileEntry| entry_view(e))
}

/// `x` placed after every element of `sorted` whose path comes no later than its own.
pub open spec fn insert_by_path(sorted: Seq<FileEntryView>, x: FileEntryView) -> Seq<FileEntryView>
    decreases sorted.len(),
{
    if sorted.len() == 0 {
        seq![x]
    } else if chars_le(sorted.last().path, x.path) {
        sorted.push(x)
    } else {
        insert_by_path(sorted.drop_last(), x).push(sorted.last())
    }
}

proof fn lemma_insert_by_path_at(sorted: Seq<FileEntryView>, x: FileEntryView, p: int)
    requires
        0 <= p <= sorted.len(),
        forall|j: int| p <= j < sorted.len() ==> !chars_le(#[trigger] sorted[j].path, x.path),
        p == 0 || chars_le(sorted[p - 1].path, x.path),
    ensures
        insert_by_path(sorted, x) == sorted.insert(p, x),
    decreases sorted.len(),
{
    if sorted.len() == 0 {
        assert(sorted.insert(p, x) =~= seq![x]);
    } else if chars_le(sorted.last().path, x.path) {
        assert(sorted.insert(p, x) =~= sorted.push(x));
    } else {
        lemma_insert_by_path_at(sorted.drop_last(), x, p);
        assert(sorted.drop_last().insert(p, x).push(sorted.last()) =~= sorted.insert(p, x));
    }
}

/// The entry of node `i`: its relative path, layer name, depth, lines of code, number of
/// imports and of importers, and whether it lies on a cycle.
pub open spec fn entry_of(g: DepGraph, cycles: Seq<CycleView>, i: int) -> FileEntryView {
    let node = graph_nodes(g)[i];
    FileEntryView {
        path: node.relative_path@,
        layer: layer_name(node.layer),
        depth: node.depth,
        loc: node.loc,
        imports: out_degree(g, i),
        imported_by: in_degree(g, i),
        in_cycle: in_cycles(cycles, node.relative_path@),
    }
}

/// The entries of nodes `0..upto`, stably sorted by path.
pub open spec fn entries_upto(g: DepGraph, cycles: Seq<CycleView>, upto: int) -> Seq<FileEntryView>
    decreases upto,
{
    if upto <= 0 {
        seq![]
    } else {
        insert_by_path(entries_upto(g, cycles, upto - 1), entry_of(g, cycles, upto - 1))
    }
}

/// The file index: one entry per node, stably sorted by path.
pub open spec fn file_entries_of(g: DepGraph, cycles: Seq<CycleView>) -> Seq<FileEntryView> {
    entries_upto(g, cycles, graph_nodes(g).len() as int)
}

/// Build the file index: one entry per file, sorted by path (files with equal paths keep
/// their node order).
pub fn build_file_entries(graph: &DepGraph, analysis: &AnalysisResult) -> (r: Vec<FileEntry>)
    ensures
        entry_views(r@) == file_entries_of(*graph, cycle_views(analysis.cycles@)),
{
    let ghost cs = cycle_views(analysis.cycles@);
    let n = graph_node_count(graph);
    let mut r: Vec<FileEntry> = Vec::new();
    let mut keys: Vec<Vec<char>> = Vec::new();
    let mut i: usize = 0;
    while i < n
        invariant
            n == graph_nodes(*graph).len(),
            i <= n,
            cs == cycle_views(analysis.cycles@),
            entry_views(r@) == entries_upto(*graph, cs, i as int),
            keys@.len() == r@.len(),
            forall|j: int| 0 <= j < r@.len() ==> #[trigger] keys@[j]@ == r@[j].path@,
        decreases n - i,
    {
        let node = graph_node(graph, i);
        let imports = graph_edges_directed(graph, i, false).len();
        let imported_by = graph_edges_directed(graph, i, true).len();
        let in_cycle = in_some_cycle(&analysis.cycles, &node.relative_path);
        let key = chars_of(node.relative_path.as_str());
        let entry = FileEntry {
            path: node.relative_path.clone(),
            layer: layer_to_string(node.layer),
            depth: node.depth,
            loc: node.loc,
            imports,
            imported_by,
            in_cycle,
        };
        let ghost x = entry_view(entry);
        assert(x == entry_of(*graph, cs, i as int));
        let mut p: usize = r.len();
        while p > 0 && !chars_le_vec(&keys[p - 1], &key)
            invariant
                p <= r@.len(),
                keys@.len() == r@.len(),
                forall|j: int| 0 <= j < r@.len() ==> #[trigger] keys@[j]@ == r@[j].path@,
                key@ == x.path,
                forall|j: int| p <= j < r@.len() ==> !chars_le(#[trigger] entry_views(r@)[j].path, x.path),
            decreases p,
        {
            assert(entry_views(r@)[p - 1].path == keys@[p - 1]@);
            p -= 1;
        }
        proof {
            if p > 0 {
                assert(entry_views(r@)[p - 1].path == keys@[p - 1]@);
            }
            lemma_insert_by_path_at(entry_views(r@), x, p as int);
        }
        let ghost before = r@;
        let ghost kbefore = keys@;
        r.insert(p, entry);
        keys.insert(p, key);
        assert(entry_views(r@) =~= entry_views(before).insert(p as int, x));
        assert forall|j: int| 0 <= j < r@.len() implies #[trigger] keys@[j]@ == r@[j].path@ by {
            if j < p {
                assert(keys@[j] == kbefore[j] && r@[j] == before[j]);
            } else if j > p {
                assert(keys@[j] == kbefore[j - 1] && r@[j] == before[j - 1]);
            }
        }
        i += 1;
    }
    r
}

// ---------------------------------------------------------------------------
// Mermaid diagram
// ---------------------------------------------------------------------------

/// How many nodes the diagram of the report shows at most.
pub const MAX_MERMAID_NODES: usize = 30;

/// The importance of node `i`: its number of importers plus its number of imports.
pub open spec fn score(g: DepGraph, i: int) -> nat {
    in_degree(g, i) + out_degree(g, i)
}

/// `x` placed after every element of `sorted` whose score is at least its own.
pub open spec fn rank_insert(sorted: Seq<(usize, nat)>, x: (usize, nat)) -> Seq<(usize, nat)>
    decreases sorted.len(),
{
    if sorted.len() == 0 {
        seq![x]
    } else if sorted.last().1 >= x.1 {
        sorted.push(x)
    } else {
        rank_insert(sorted.drop_last(), x).push(sorted.last())
    }
}

proof fn lemma_rank_insert_at(sorted: Seq<(usize, nat)>, x: (usize, nat), p: int)
    requires
        0 <= p <= sorted.len(),
        forall|j: int| p <= j < sorted.len() ==> #[trigger] sorted[j].1 < x.1,
        p == 0 || sorted[p - 1].1 >= x.1,
    ensures
        rank_insert(sorted, x) == sorted.insert(p, x),
    decreases sorted.len(),
{
    if sorted.len() == 0 {
        assert(sorted.insert(p, x) =~= seq![x]);
    } else if sorted.last().1 >= x.1 {
        assert(sorted.insert(p, x) =~= sorted.push(x));
    } else {
        lemma_rank_insert_at(sorted.drop_last(), x, p);
        assert(sorted.drop_last().insert(p, x).push(sorted.last()) =~= sorted.insert(p, x));
    }
}

/// The nodes `0..upto` with their scores, stably sorted by score, highest first.
pub open spec fn ranking_upto(g: DepGraph, upto: int) -> Seq<(usize, nat)>
    decreases upto,
{
    if upto <= 0 {
        seq![]
    } else {
        rank_insert(ranking_upto(g, upto - 1), ((upto - 1) as usize, score(g, upto - 1)))
    }
}

/// All nodes with their scores, highest first (ties in node order).
pub open spec fn ranking(g: DepGraph) -> Seq<(usize, nat)> {
    ranking_upto(g, graph_nodes(g).len() as int)
}

/// Node `i` holds a file of some cycle.
pub open spec fn node_in_cycle(g: DepGraph, cycles: Seq<CycleView>, i: int) -> bool {
    in_cycles(cycles, graph_nodes(g)[i].relative_path@)
}

/// The number of nodes among `0..upto` that hold a file of some cycle.
pub open spec fn cycle_node_count(g: DepGraph, cycles: Seq<CycleView>, upto: int) -> nat
    decreases upto,
{
    if upto <= 0 {
        0
    } else {
        cycle_node_count(g, cycles, upto - 1) + if node_in_cycle(g, cycles, upto - 1) {
            1nat
        } else {
            0nat
        }
    }
}

/// The selection after the first `k` nodes of the ranking were considered, with its size:
/// it starts with the nodes on cycles; each ranked node is added while fewer than `max`
/// nodes are selected.
pub open spec fn select_upto(g: DepGraph, cycles: Seq<CycleView>, max: nat, k: int) -> (Seq<bool>, nat)
    decreases k,
{
    if k <= 0 {
        (
            Seq::new(graph_nodes(g).len(), |i: int| node_in_cycle(g, cycles, i)),
            cycle_node_count(g, cycles, graph_nodes(g).len() as int),
        )
    } else {
        let prev = select_upto(g, cycles, max, k - 1);
        let idx = ranking(g)[k - 1].0 as int;
        if prev.1 >= max {
            prev
        } else if 0 <= idx < prev.0.len() && !prev.0[idx] {
            (prev.0.update(idx, true), prev.1 + 1)
        } else {
            prev
        }
    }
}

/// The nodes the diagram shows, and how many.
pub open spec fn selection(g: DepGraph, cycles: Seq<CycleView>, max: nat) -> (Seq<bool>, nat) {
    select_upto(g, cycles, max, ranking(g).len() as int)
}

/// The diagram line of a node: its id, its shortened path, and its style class ("cycle"
/// for a node on a cycle, else its layer's).
pub open spec fn node_line(node: FileNode, on_cycle: bool) -> Seq<char> {
    "  "@ + mermaid_id(node.relative_path@) + "["@ + shortened(node.relative_path@, 20) + "]:::"@ + if on_cycle {
        "cycle"@
    } else {
        layer_class(node.layer)
    }
}

/// The lines of the selected nodes among `0..upto`, in node order.
pub open spec fn node_lines_upto(g: DepGraph, cycles: Seq<CycleView>, sel: Seq<bool>, upto: int) -> Seq<Seq<char>>
    decreases upto,
{
    if upto <= 0 {
        seq![]
    } else {
        let rest = node_lines_upto(g, cycles, sel, upto - 1);
        if sel[upto - 1] {
            rest.push(node_line(graph_nodes(g)[upto - 1], node_in_cycle(g, cycles, upto - 1)))
        } else {
            rest
        }
    }
}

/// The diagram line of an edge between two shown nodes.
pub open spec fn edge_line(g: DepGraph, e: (usize, usize, Import)) -> Seq<char> {
    "  "@ + mermaid_id(graph_nodes(g)[e.0 as int].relative_path@) + " --> "@ + mermaid_id(graph_nodes(g)[e.1 as int].relative_path@)
}

/// The lines of the edges among the first `upto` whose both ends are shown, in edge order.
pub open spec fn edge_lines_upto(g: DepGraph, sel: Seq<bool>, upto: int) -> Seq<Seq<char>>
    decreases upto,
{
    if upto <= 0 {
        seq![]
    } else {
        let rest = edge_lines_upto(g, sel, upto - 1);
        let e = graph_edges(g)[upto - 1];
        if sel[e.0 as int] && sel[e.1 as int] {
            rest.push(edge_line(g, e))
        } else {
            rest
        }
    }
}

/// The opening lines of a diagram: the fence, the chart kind and the style classes.
pub open spec fn mermaid_header() -> Seq<Seq<char>> {
    seq![
        "```mermaid"@,
        "flowchart LR"@,
        "  classDef entry fill:#90EE90,stroke:#006400"@,
        "  classDef app fill:#87CEEB,stroke:#4169E1"@,
        "  classDef core fill:#FFD700,stroke:#B8860B"@,
        "  classDef platform fill:#DDA0DD,stroke:#8B008B"@,
        "  classDef driver fill:#FFA07A,stroke:#FF4500"@,
        "  classDef arch fill:#D3D3D3,stroke:#696969"@,
        "  classDef cycle fill:#FF6B6B,stroke:#CC0000,stroke-width:3px"@,
    ]
}

/// The lines of the diagram of a non-empty graph: header, shown nodes, edges between them,
/// the closing fence, and, when not every node could be shown, a note of how many are.
pub open spec fn mermaid_lines(g: DepGraph, cycles: Seq<CycleView>, max: nat) -> Seq<Seq<char>> {
    let sel = selection(g, cycles, max);
    let n = graph_nodes(g).len();
    mermaid_header() + node_lines_upto(g, cycles, sel.0, n as int) + edge_lines_upto(g, sel.0, graph_edges(g).len() as int)
        + seq!["```"@] + if n > max {
        seq![Seq::<char>::empty(), "_Showing "@ + decimal(sel.1) + " of "@ + decimal(n) + " files (top by connectivity)_"@]
    } else {
        seq![]
    }
}

/// The diagram of an empty graph.
pub open spec fn empty_mermaid() -> Seq<char> {
    "```mermaid\nflowchart LR\n  empty[No files found]\n```"@
}

/// The Mermaid diagram of a graph.
pub open spec fn mermaid_of(g: DepGraph, cycles: Seq<CycleView>, max: nat) -> Seq<char> {
    if graph_nodes(g).len() == 0 {
        empty_mermaid()
    } else {
        join(mermaid_lines(g, cycles, max), "\n"@)
    }
}

/// The line of node `i` in the diagram.
fn node_line_string(node: &FileNode, on_cycle: bool) -> (s: String)
    ensures
        s@ == node_line(*node, on_cycle),
{
    let mut s = str_to_string("  ");
    let id = sanitize_mermaid_id(node.relative_path.as_str());
    s.append(id.as_str());
    s.append("[");
    let label = truncate_filename(node.relative_path.as_str(), 20);
    s.append(label.as_str());
    s.append("]:::");
    if on_cycle {
        s.append("cycle");
    } else {
        s.append(layer_to_class(node.layer));
    }
    s
}

/// Generate a Mermaid flowchart of the dependency graph.
///
/// At most `max_nodes` nodes are shown, chosen by importance (importers plus imports,
/// highest first, ties in node order) after every node on a cycle, which is always shown.
/// Nodes on cycles get the "cycle" style, the others their layer's. Shown nodes are
/// listed in node order, then the edges between them in edge order.
pub fn generate_mermaid(graph: &DepGraph, analysis: &AnalysisResult, max_nodes: usize) -> (r: String)
    ensures
        r@ == mermaid_of(*graph, cycle_views(analysis.cycles@), max_nodes as nat),
{
    let ghost cs = cycle_views(analysis.cycles@);
    let ghost g = *graph;
    let n = graph_node_count(graph);
    if n == 0 {
        return str_to_string("```mermaid\nflowchart LR\n  empty[No files found]\n```");
    }
    // rank the nodes by score
    let mut ranked: Vec<(usize, u128)> = Vec::new();
    let mut i: usize = 0;
    while i < n
        invariant
            n == graph_nodes(g).len(),
            g == *graph,
            i <= n,
            ranked@.map_values(|p: (usize, u128)| (p.0, p.1 as nat)) == ranking_upto(g, i as int),
        decreases n - i,
    {
        let fan_in = graph_edges_directed(graph, i, true).len();
        let fan_out = graph_edges_directed(graph, i, false).len();
        let sc: u128 = (fan_in as u128) + (fan_out as u128);
        let ghost x = (i, score(g, i as int));
        assert(sc as nat == score(g, i as int));
        let ghost rv = ranked@.map_values(|p: (usize, u128)| (p.0, p.1 as nat));
        let mut p: usize = ranked.len();
        while p > 0 && ranked[p - 1].1 < sc
            invariant
                p <= ranked@.len(),
                rv == ranked@.map_values(|p: (usize, u128)| (p.0, p.1 as nat)),
                forall|j: int| p <= j < ranked@.len() ==> #[trigger] ranked@[j].1 < sc,
            decreases p,
        {
            p -= 1;
        }
        proof {
            assert forall|j: int| p <= j < rv.len() implies #[trigger] rv[j].1 < x.1 by {
                assert(rv[j].1 == ranked@[j].1 as nat);
            }
            if p > 0 {
                assert(rv[p - 1].1 == ranked@[p - 1].1 as nat);
            }
            lemma_rank_insert_at(rv, x, p as int);
        }
        ranked.insert(p, (i, sc));
        assert(ranked@.map_values(|p: (usize, u128)| (p.0, p.1 as nat)) =~= rv.insert(p as int, x));
        i += 1;
    }
    let ghost rk = ranking(g);
    // the nodes on cycles
    let mut on_cycle: Vec<bool> = Vec::new();
    let mut count: usize = 0;
    let mut i: usize = 0;
    while i < n
        invariant
            n == graph_nodes(g).len(),
            g == *graph,
            cs == cycle_views(analysis.cycles@),
            i <= n,
            on_cycle@ == Seq::new(i as nat, |j: int| node_in_cycle(g, cs, j)),
            count == cycle_node_count(g, cs, i as int),
            count <= i,
        decreases n - i,
    {
        let c = in_some_cycle(&analysis.cycles, &graph_node(graph, i).relative_path);
        on_cycle.push(c);
        if c {
            count += 1;
        }
        i += 1;
        assert(on_cycle@ =~= Seq::new(i as nat, |j: int| node_in_cycle(g, cs, j)));
    }
    let mut selected: Vec<bool> = on_cycle.clone();
    assert(selected@ == on_cycle@);
    // then the highest ranked, while there is room
    let mut k: usize = 0;
    while k < ranked.len()
        invariant
            n == graph_nodes(g).len(),
            g == *graph,
            cs == cycle_views(analysis.cycles@),
            rk == ranking(g),
            k <= ranked@.len(),
            ranked@.map_values(|p: (usize, u128)| (p.0, p.1 as nat)) == rk,
            (selected@, count as nat) == select_upto(g, cs, max_nodes as nat, k as int),
            selected@.len() == n,
        decreases ranked.len() - k,
    {
        let idx = ranked[k].0;
        assert(rk[k as int].0 == idx);
        if count >= max_nodes {
        } else if idx < selected.len() && !selected[idx] {
            selected.set(idx, true);
            count += 1;
        }
        k += 1;
    }
    let ghost sel = selected@;
    assert((sel, count as nat) == selection(g, cs, max_nodes as nat));
    let mut lines: Vec<String> = Vec::new();
    lines.push(str_to_string("```mermaid"));
    lines.push(str_to_string("flowchart LR"));
    lines.push(str_to_string("  classDef entry fill:#90EE90,stroke:#006400"));
    lines.push(str_to_string("  classDef app fill:#87CEEB,stroke:#4169E1"));
    lines.push(str_to_string("  classDef core fill:#FFD700,stroke:#B8860B"));
    lines.push(str_to_string("  classDef platform fill:#DDA0DD,stroke:#8B008B"));
    lines.push(str_to_string("  classDef driver fill:#FFA07A,stroke:#FF4500"));
    lines.push(str_to_string("  classDef arch fill:#D3D3D3,stroke:#696969"));
    lines.push(str_to_string("  classDef cycle fill:#FF6B6B,stroke:#CC0000,stroke-width:3px"));
    assert(views(lines@) =~= mermaid_header());
    let mut i: usize = 0;
    while i < n
        invariant
            n == graph_nodes(g).len(),
            g == *graph,
            i <= n,
            selected@ == sel,
            sel.len() == n,
            on_cycle@ == Seq::new(n as nat, |j: int| node_in_cycle(g, cs, j)),
            views(lines@) == mermaid_header() + node_lines_upto(g, cs, sel, i as int),
        decreases n - i,
    {
        if selected[i] {
            let node = graph_node(graph, i);
            let line = node_line_string(node, on_cycle[i]);
            let ghost before = views(lines@);
            lines.push(line);
            assert(views(lines@) =~= before.push(line@));
        }
        i += 1;
    }
    let raw = graph_raw_edges(graph);
    let ghost base = views(lines@);
    let mut e: usize = 0;
    while e < raw.len()
        invariant
            n == graph_nodes(g).len(),
            g == *graph,
            raw@ == graph_edges(g),
            edges_within(raw@, n as nat),
            e <= raw@.len(),
            selected@ == sel,
            sel.len() == n,
            views(lines@) == base + edge_lines_upto(g, sel, e as int),
        decreases raw.len() - e,
    {
        let (a, b, _w) = raw[e];
        assert(raw@[e as int].0 < n && raw@[e as int].1 < n);
        if selected[a] && selected[b] {
            let mut line = str_to_string("  ");
            let ida = sanitize_mermaid_id(graph_node(graph, a).relative_path.as_str());
            let idb = sanitize_mermaid_id(graph_node(graph, b).relative_path.as_str());
            line.append(ida.as_str());
            line.append(" --> ");
            line.append(idb.as_str());
            let ghost before = views(lines@);
            lines.push(line);
            assert(views(lines@) =~= before.push(line@));
        }
        e += 1;
    }
    let ghost before_close = views(lines@);
    lines.push(str_to_string("```"));
    assert(views(lines@) =~= before_close + seq!["```"@]);
    if n > max_nodes {
        let ghost before_note = views(lines@);
        lines.push(String::new());
        let mut note = str_to_string("_Showing ");
        note.append(usize_to_string(count).as_str());
        note.append(" of ");
        note.append(usize_to_string(n).as_str());
        note.append(" files (top by connectivity)_");
        lines.push(note);
        assert(views(lines@) =~= before_note + seq![Seq::<char>::empty(), note@]);
    }
    assert(views(lines@) =~= mermaid_lines(g, cs, max_nodes as nat));
    join_strings(&lines, "\n")
}

// ---------------------------------------------------------------------------
// Report data
// ---------------------------------------------------------------------------

/// Template data for CODEBASE.md generation.
#[derive(Debug)]
pub struct CodebaseTemplate {
    /// Project name (derived from root path)
    pub project_name: String,
    /// Generation timestamp
    pub generated_at: String,
    /// Overview statistics
    pub overview: Overview,
    /// Mermaid diagram source
    pub mermaid_diagram: String,
    /// File index entries
    pub files: Vec<FileEntry>,
    /// Alert entries (cycles and violations)
    pub alerts: Vec<Alert>,
    /// Layer definitions with descriptions
    pub layers: Vec<LayerInfo>,
    /// Whether there are any alerts
    pub has_alerts: bool,
}

impl CodebaseTemplate {
    /// Create the report data from a graph, its analysis and its codebase map: the project
    /// name from the map's root, the map's timestamp, the overview, a diagram of at most
    /// `MAX_MERMAID_NODES` nodes, the file index, the alerts and the layer table. The total
    /// lines of code must fit in a `usize`.
    pub fn from_graph(graph: &DepGraph, analysis: &AnalysisResult, codemap: &CodebaseMap) -> (t: Self)
        requires
            loc_sum(graph_nodes(*graph), graph_nodes(*graph).len() as int) <= usize::MAX,
        ensures
            t.project_name@ == project_name_of(codemap.root_path@),
            t.generated_at@ == codemap.generated_at@,
            is_overview_of(t.overview, *graph, *analysis, *codemap),
            t.mermaid_diagram@ == mermaid_of(*graph, cycle_views(analysis.cycles@), MAX_MERMAID_NODES as nat),
            entry_views(t.files@) == file_entries_of(*graph, cycle_views(analysis.cycles@)),
            alert_views(t.alerts@) == alerts_of(cycle_views(analysis.cycles@), violation_views(analysis.violations@)),
            t.layers@.map_values(|i: LayerInfo| layer_info_view(i)) == layer_definitions(),
            t.has_alerts == (t.alerts@.len() > 0),
    {
        let project_name = extract_project_name(codemap.root_path.as_str());
        let overview = build_overview(graph, analysis, codemap);
        let mermaid_diagram = generate_mermaid(graph, analysis, MAX_MERMAID_NODES);
        let files = build_file_entries(graph, analysis);
        let alerts = build_alerts(analysis);
        let layers = build_layer_info();
        let has_alerts = alerts.len() > 0;
        CodebaseTemplate {
            project_name,
            generated_at: codemap.generated_at.clone(),
            overview,
            mermaid_diagram,
            files,
            alerts,
            layers,
            has_alerts,
        }
    }
}

// ---------------------------------------------------------------------------
// Laws
// ---------------------------------------------------------------------------

/// A Mermaid node id holds none of the characters that Mermaid would misread: `/`, `\`,
/// `.`, `-` or a space.
pub proof fn law_mermaid_id_clean(p: Seq<char>)
    ensures
        forall|k: int| 0 <= k < mermaid_id(p).len() ==> {
            let c = #[trigger] mermaid_id(p)[k];
            c != '/' && c != '\\' && c != '.' && c != '-' && c != ' '
        },
{
}

/// With room for the ellipsis, a shortened path never exceeds its limit.
pub proof fn law_shortened_fits(p: Seq<char>, max: nat)
    requires
        max >= 3,
    ensures
        shortened(p, max).len() <= max,
{
    reveal_strlit("...");
}

/// The selection only ever grows: a node selected after `j` ranked nodes were considered
/// is still selected after `k >= j`.
proof fn lemma_selection_grows(g: DepGraph, cycles: Seq<CycleView>, max: nat, j: int, k: int, i: int)
    requires
        0 <= j <= k,
        0 <= i < select_upto(g, cycles, max, j).0.len(),
        select_upto(g, cycles, max, j).0[i],
    ensures
        select_upto(g, cycles, max, k).0.len() == select_upto(g, cycles, max, j).0.len(),
        select_upto(g, cycles, max, k).0[i],
    decreases k - j,
{
    if k > j {
        lemma_selection_grows(g, cycles, max, j, k - 1, i);
    }
}

/// Every node on a cycle is shown in the diagram, however many nodes that makes.
pub proof fn law_cycle_nodes_always_shown(g: DepGraph, cycles: Seq<CycleView>, max: nat, i: int)
    requires
        0 <= i < graph_nodes(g).len(),
        node_in_cycle(g, cycles, i),
    ensures
        selection(g, cycles, max).0[i],
{
    lemma_selection_grows(g, cycles, max, 0, ranking(g).len() as int, i);
}

/// Beyond the nodes on cycles, the diagram shows no more than `max` nodes: its count is at
/// most the larger of `max` and the number of nodes on cycles.
pub proof fn law_selection_bounded(g: DepGraph, cycles: Seq<CycleView>, max: nat, k: int)
    requires
        0 <= k,
    ensures
        select_upto(g, cycles, max, k).1 <= if max > cycle_node_count(g, cycles, graph_nodes(g).len() as int) {
            max
        } else {
            cycle_node_count(g, cycles, graph_nodes(g).len() as int)
        },
    decreases k,
{
    if k > 0 {
        law_selection_bounded(g, cycles, max, k - 1);
    }
}


/// The number of `true` entries of `s`.
pub open spec fn count_true(s: Seq<bool>) -> nat
    decreases s.len(),
{
    if s.len() == 0 {
        0
    } else {
        count_true(s.drop_last()) + if s.last() { 1nat } else { 0nat }
    }
}

proof fn lemma_count_true_update(s: Seq<bool>, i: int)
    requires
        0 <= i < s.len(),
        !s[i],
    ensures
        count_true(s.update(i, true)) == count_true(s) + 1,
    decreases s.len(),
{
    let u = s.update(i, true);
    if i == s.len() - 1 {
        assert(u.drop_last() =~= s.drop_last());
    } else {
        assert(u.drop_last() =~= s.drop_last().update(i, true));
        lemma_count_true_update(s.drop_last(), i);
    }
}

proof fn lemma_count_true_bounds(s: Seq<bool>)
    ensures
        count_true(s) <= s.len(),
        (forall|i: int| 0 <= i < s.len() ==> #[trigger] s[i]) ==> count_true(s) == s.len(),
    decreases s.len(),
{
    if s.len() > 0 {
        lemma_count_true_bounds(s.drop_last());
        if forall|i: int| 0 <= i < s.len() ==> #[trigger] s[i] {
            assert forall|i: int| 0 <= i < s.drop_last().len() implies #[trigger] s.drop_last()[i] by {
                assert(s[i]);
            }
            assert(s[s.len() - 1]);
        }
    }
}

proof fn lemma_count_true_cycles(g: DepGraph, cycles: Seq<CycleView>, u: int)
    requires
        0 <= u <= graph_nodes(g).len(),
    ensures
        count_true(Seq::new(u as nat, |i: int| node_in_cycle(g, cycles, i))) == cycle_node_count(g, cycles, u),
    decreases u,
{
    if u > 0 {
        lemma_count_true_cycles(g, cycles, u - 1);
        assert(Seq::new(u as nat, |i: int| node_in_cycle(g, cycles, i)).drop_last()
            =~= Seq::new((u - 1) as nat, |i: int| node_in_cycle(g, cycles, i)));
    }
}

proof fn lemma_rank_insert_members(t: Seq<(usize, nat)>, x: (usize, nat))
    ensures
        rank_insert(t, x).len() == t.len() + 1,
        forall|y: (usize, nat)| #[trigger] rank_insert(t, x).contains(y) <==> (t.contains(y) || y == x),
    decreases t.len(),
{
    let r = rank_insert(t, x);
    if t.len() == 0 {
        assert(r[0] == x);
    } else if t.last().1 >= x.1 {
        assert forall|y: (usize, nat)| r.contains(y) <==> (t.contains(y) || y == x) by {
            if t.contains(y) {
                let q = choose|q: int| 0 <= q < t.len() && t[q] == y;
                assert(r[q] == y);
            }
            if y == x {
                assert(r[t.len() as int] == x);
            }
            if r.contains(y) {
                let q = choose|q: int| 0 <= q < r.len() && r[q] == y;
                if q < t.len() {
                    assert(t[q] == y);
                }
            }
        }
    } else {
        lemma_rank_insert_members(t.drop_last(), x);
        let r0 = rank_insert(t.drop_last(), x);
        assert(r == r0.push(t.last()));
        assert forall|y: (usize, nat)| r.contains(y) <==> (t.contains(y) || y == x) by {
            if t.contains(y) {
                let q = choose|q: int| 0 <= q < t.len() && t[q] == y;
                if q < t.len() - 1 {
                    assert(t.drop_last()[q] == y);
                    assert(t.drop_last().contains(y));
                    assert(r0.contains(y));
                    let w = choose|w: int| 0 <= w < r0.len() && r0[w] == y;
                    assert(r[w] == y);
                } else {
                    assert(r[r0.len() as int] == y);
                }
            }
            if y == x {
                assert(r0.contains(y));
                let w = choose|w: int| 0 <= w < r0.len() && r0[w] == y;
                assert(r[w] == y);
            }
            if r.contains(y) {
                let q = choose|q: int| 0 <= q < r.len() && r[q] == y;
                if q < r0.len() {
                    assert(r0[q] == y);
                    assert(r0.contains(y));
                    if t.drop_last().contains(y) {
                        let w = choose|w: int| 0 <= w < t.drop_last().len() && t.drop_last()[w] == y;
                        assert(t[w] == y);
                    }
                } else {
                    assert(t[t.len() - 1] == y);
                }
            }
        }
    }
}

/// The ranking lists every node once with its score: its length is the node count and it
/// holds exactly the pairs of node and score.
proof fn lemma_ranking_members(g: DepGraph, u: int)
    requires
        0 <= u <= usize::MAX,
    ensures
        ranking_upto(g, u).len() == u,
        forall|y: (usize, nat)| ranking_upto(g, u).contains(y) <==> (y.0 < u && y.1 == score(g, y.0 as int)),
    decreases u,
{
    if u > 0 {
        lemma_ranking_members(g, u - 1);
        let x = ((u - 1) as usize, score(g, u - 1));
        lemma_rank_insert_members(ranking_upto(g, u - 1), x);
        assert forall|y: (usize, nat)| ranking_upto(g, u).contains(y) <==> (y.0 < u && y.1 == score(g, y.0 as int)) by {
            assert(ranking_upto(g, u - 1).contains(y) <==> (y.0 < u - 1 && y.1 == score(g, y.0 as int)));
        }
    }
}

/// What the selection keeps true as ranked nodes are considered.
proof fn lemma_selection_state(g: DepGraph, cycles: Seq<CycleView>, max: nat, k: int)
    requires
        0 <= k <= ranking(g).len(),
        graph_nodes(g).len() <= usize::MAX,
    ensures
        ({
            let (sel, cnt) = select_upto(g, cycles, max, k);
            let c = cycle_node_count(g, cycles, graph_nodes(g).len() as int);
            &&& sel.len() == graph_nodes(g).len()
            &&& cnt == count_true(sel)
            &&& c >= max ==> cnt == c
            &&& c < max ==> cnt <= max
            &&& cnt < max ==> forall|q: int| 0 <= q < k ==> #[trigger] sel[ranking(g)[q].0 as int]
        }),
    decreases k,
{
    let n = graph_nodes(g).len();
    lemma_ranking_members(g, n as int);
    if k == 0 {
        lemma_count_true_cycles(g, cycles, n as int);
    } else {
        lemma_selection_state(g, cycles, max, k - 1);
        let (ps, pc) = select_upto(g, cycles, max, k - 1);
        let idx = ranking(g)[k - 1].0 as int;
        assert(ranking(g).contains(ranking(g)[k - 1]));
        assert(idx < n);
        let (sel, cnt) = select_upto(g, cycles, max, k);
        if pc < max {
            if !ps[idx] {
                lemma_count_true_update(ps, idx);
            }
            assert(sel[idx]);
            if cnt < max {
                assert forall|q: int| 0 <= q < k implies #[trigger] sel[ranking(g)[q].0 as int] by {
                    assert(ranking(g).contains(ranking(g)[q]));
                    if q < k - 1 {
                        assert(ps[ranking(g)[q].0 as int]);
                    }
                }
            }
        }
    }
}

/// The diagram shows the nodes on cycles and, beside them, the best-ranked nodes up to
/// `max` in all: exactly max(|C|, min(max, n)) nodes, where C is the set of nodes on cycles.
pub proof fn law_selection_size(g: DepGraph, cycles: Seq<CycleView>, max: nat)
    requires
        graph_nodes(g).len() <= usize::MAX,
    ensures
        ({
            let c = cycle_node_count(g, cycles, graph_nodes(g).len() as int);
            let n = graph_nodes(g).len();
            let shown = if max < n { max } else { n };
            selection(g, cycles, max).1 == if c > shown { c } else { shown }
        }),
{
    let n = graph_nodes(g).len();
    lemma_ranking_members(g, n as int);
    lemma_selection_state(g, cycles, max, n as int);
    let (sel, cnt) = selection(g, cycles, max);
    let c = cycle_node_count(g, cycles, n as int);
    lemma_count_true_bounds(sel);
    lemma_count_true_cycles(g, cycles, n as int);
    lemma_count_true_bounds(Seq::new(n, |i: int| node_in_cycle(g, cycles, i)));
    if c < max && cnt < max {
        assert forall|i: int| 0 <= i < sel.len() implies #[trigger] sel[i] by {
            let y = (i as usize, score(g, i));
            assert(y.0 as int == i);
            assert(ranking(g).contains(y));
            let q = choose|q: int| 0 <= q < ranking(g).len() && ranking(g)[q] == y;
            assert(sel[ranking(g)[q].0 as int]);
        }
        lemma_count_true_bounds(sel);
    }
}


/// Scores never increase along `s`.
pub open spec fn rank_sorted(s: Seq<(usize, nat)>) -> bool {
    forall|i: int, j: int| 0 <= i < j < s.len() ==> #[trigger] s[i].1 >= #[trigger] s[j].1
}

proof fn lemma_rank_insert_sorted(t: Seq<(usize, nat)>, x: (usize, nat))
    requires
        rank_sorted(t),
    ensures
        rank_sorted(rank_insert(t, x)),
    decreases t.len(),
{
    lemma_rank_insert_members(t, x);
    let r = rank_insert(t, x);
    if t.len() == 0 {
    } else if t.last().1 >= x.1 {
        assert forall|i: int, j: int| 0 <= i < j < r.len() implies #[trigger] r[i].1 >= #[trigger] r[j].1 by {
            if j == t.len() {
                assert(t[i].1 >= t[t.len() - 1].1 || i == t.len() - 1);
            } else {
                assert(r[i] == t[i] && r[j] == t[j]);
            }
        }
    } else {
        let t0 = t.drop_last();
        assert forall|i: int, j: int| 0 <= i < j < t0.len() implies #[trigger] t0[i].1 >= #[trigger] t0[j].1 by {
            assert(t[i].1 >= t[j].1);
        }
        lemma_rank_insert_sorted(t0, x);
        lemma_rank_insert_members(t0, x);
        let r0 = rank_insert(t0, x);
        assert(r == r0.push(t.last()));
        assert forall|i: int, j: int| 0 <= i < j < r.len() implies #[trigger] r[i].1 >= #[trigger] r[j].1 by {
            if j == r0.len() {
                assert(r0.contains(r0[i]));
                if r0[i] != x {
                    let w = choose|w: int| 0 <= w < t0.len() && t0[w] == r0[i];
                    assert(t[w].1 >= t[t.len() - 1].1);
                }
            } else {
                assert(r[i] == r0[i] && r[j] == r0[j]);
            }
        }
    }
}

proof fn lemma_ranking_sorted(g: DepGraph, u: int)
    requires
        0 <= u,
    ensures
        rank_sorted(ranking_upto(g, u)),
    decreases u,
{
    if u > 0 {
        lemma_ranking_sorted(g, u - 1);
        lemma_rank_insert_sorted(ranking_upto(g, u - 1), ((u - 1) as usize, score(g, u - 1)));
    }
}

proof fn lemma_selection_count_grows(g: DepGraph, cycles: Seq<CycleView>, max: nat, j: int, k: int)
    requires
        0 <= j <= k,
    ensures
        select_upto(g, cycles, max, j).1 <= select_upto(g, cycles, max, k).1,
    decreases k - j,
{
    if k > j {
        lemma_selection_count_grows(g, cycles, max, j, k - 1);
    }
}

/// A node off the cycles is selected only at its own place in the ranking, while fewer
/// than `max` nodes were selected.
proof fn lemma_selected_when(g: DepGraph, cycles: Seq<CycleView>, max: nat, i: int, k: int)
    requires
        0 <= i < graph_nodes(g).len(),
        0 <= k <= ranking(g).len(),
        graph_nodes(g).len() <= usize::MAX,
        !node_in_cycle(g, cycles, i),
        select_upto(g, cycles, max, k).0[i],
    ensures
        exists|q: int| 0 <= q < k && ranking(g)[q].0 == i && #[trigger] select_upto(g, cycles, max, q).1 < max,
    decreases k,
{
    lemma_selection_state(g, cycles, max, k);
    if k > 0 {
        lemma_selection_state(g, cycles, max, k - 1);
        let prev = select_upto(g, cycles, max, k - 1);
        if prev.0[i] {
            lemma_selected_when(g, cycles, max, i, k - 1);
            let q = choose|q: int| 0 <= q < k - 1 && ranking(g)[q].0 == i && #[trigger] select_upto(g, cycles, max, q).1 < max;
            assert(select_upto(g, cycles, max, q).1 < max);
        } else {
            assert(ranking(g)[k - 1].0 == i);
            assert(select_upto(g, cycles, max, k - 1).1 < max);
        }
    }
}

/// Beside the nodes on cycles, the diagram shows the most connected nodes: every shown
/// node that is on no cycle is at least as connected (imports plus importers) as every
/// node left out.
pub proof fn law_shown_nodes_rank_highest(g: DepGraph, cycles: Seq<CycleView>, max: nat, s: int, u: int)
    requires
        graph_nodes(g).len() <= usize::MAX,
        0 <= s < graph_nodes(g).len(),
        0 <= u < graph_nodes(g).len(),
        selection(g, cycles, max).0[s],
        !node_in_cycle(g, cycles, s),
        !selection(g, cycles, max).0[u],
    ensures
        score(g, s) >= score(g, u),
{
    let n = graph_nodes(g).len();
    let rk = ranking(g);
    lemma_ranking_members(g, n as int);
    lemma_ranking_sorted(g, n as int);
    lemma_selection_state(g, cycles, max, n as int);
    lemma_selected_when(g, cycles, max, s, n as int);
    let q = choose|q: int| 0 <= q < n && rk[q].0 == s && #[trigger] select_upto(g, cycles, max, q).1 < max;
    let y = (u as usize, score(g, u));
    assert(rk.contains(y));
    let p = choose|p: int| 0 <= p < rk.len() && rk[p] == y;
    assert(rk.contains(rk[q]));
    if p < q {
        lemma_selection_count_grows(g, cycles, max, p, q);
        lemma_selection_state(g, cycles, max, p);
        assert(select_upto(g, cycles, max, p + 1).0[u]);
        lemma_selection_grows(g, cycles, max, p + 1, n as int, u);
    } else if p == q {
        assert(rk[p].0 == s);
    } else {
        assert(rk[q].1 >= rk[p].1);
    }
}

} // verus!
