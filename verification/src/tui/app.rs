//! Application state of the explorer: the graph and its analysis, the selection, the view
//! mode, the active panel, scrolling, search and alert navigation.

use vstd::prelude::*;
use crate::graph::{DepGraph, graph_nodes, graph_node, graph_node_count};
use crate::graph::analysis::{AnalysisResult, Cycle, CycleView, cycle_views};
use crate::tui::layout::{GraphLayout, fits_layout, is_layout_of, depth_group, group_upto, node_path, nodes_at_depth, lemma_group};
use crate::text::{chars_of, string_from_chars, find, find_chars, views};

verus! {

broadcast use vstd::string::group_string_axioms;

/// View mode for graph visualization.
#[derive(Debug, Clone, Copy, PartialEq, Eq, Structural)]
pub enum ViewMode {
    /// Normal view - show full graph
    Normal,
    /// Highlight what the selected file imports
    Imports,
    /// Highlight what imports the selected file
    Dependents,
    /// Search/filter mode
    Search,
}

/// Active panel in the explorer.
#[derive(Debug, Clone, Copy, PartialEq, Eq, Structural)]
pub enum ActivePanel {
    /// Graph view panel
    Graph,
    /// File details panel
    Details,
    /// Alerts (cycles/violations) panel
    Alerts,
}

/// Main application state of the explorer.
#[derive(Debug)]
pub struct App {
    /// Dependency graph
    pub graph: DepGraph,
    /// Analysis results (cycles, violations, metrics)
    pub analysis: AnalysisResult,
    /// Currently selected node in the graph (a node index)
    pub selected_node: Option<usize>,
    /// Current view mode
    pub mode: ViewMode,
    /// Currently active panel
    pub panel: ActivePanel,
    /// Whether the application should quit
    pub should_quit: bool,
    /// Graph layout for visualization
    pub layout: GraphLayout,
    /// Viewport scroll offset (x, y)
    pub viewport_offset: (i16, i16),
    /// Details panel scroll offset
    pub details_scroll: usize,
    /// Selected alert index in alerts panel
    pub selected_alert: usize,
    /// Whether to show the help overlay
    pub show_help: bool,
    /// Whether to show layer colors (for accessibility)
    pub show_layer_colors: bool,
    /// Search query text
    pub search_query: String,
    /// Search results (node indices matching query)
    pub search_results: Vec<usize>,
    /// Current position in cycle navigation
    pub cycle_index: usize,
}

// ---------------------------------------------------------------------------
// Looking up nodes
// ---------------------------------------------------------------------------

/// The first node at or after `i` whose depth is `d`.
pub open spec fn first_at_depth_from(g: DepGraph, d: int, i: int) -> Option<usize>
    decreases graph_nodes(g).len() - i,
{
    if i < 0 || i >= graph_nodes(g).len() {
        None
    } else if graph_nodes(g)[i].depth == d {
        Some(i as usize)
    } else {
        first_at_depth_from(g, d, i + 1)
    }
}

/// The first node whose depth is `d`.
pub open spec fn first_at_depth(g: DepGraph, d: int) -> Option<usize> {
    first_at_depth_from(g, d, 0)
}

/// The first node at or after `i` whose relative path is `name`.
pub open spec fn node_named_from(g: DepGraph, name: Seq<char>, i: int) -> Option<usize>
    decreases graph_nodes(g).len() - i,
{
    if i < 0 || i >= graph_nodes(g).len() {
        None
    } else if node_path(g, i) == name {
        Some(i as usize)
    } else {
        node_named_from(g, name, i + 1)
    }
}

/// The first node whose relative path is `name`.
pub open spec fn node_named(g: DepGraph, name: Seq<char>) -> Option<usize> {
    node_named_from(g, name, 0)
}

/// The first index at or after `i` at which `s` holds `x`.
pub open spec fn index_from(s: Seq<usize>, x: usize, i: int) -> Option<int>
    decreases s.len() - i,
{
    if i < 0 || i >= s.len() {
        None
    } else if s[i] == x {
        Some(i)
    } else {
        index_from(s, x, i + 1)
    }
}

fn find_at_depth(graph: &DepGraph, d: usize) -> (r: Option<usize>)
    ensures
        r == first_at_depth(*graph, d as int),
{
    let n = graph_node_count(graph);
    let mut i: usize = 0;
    while i < n
        invariant
            n == graph_nodes(*graph).len(),
            i <= n,
            first_at_depth(*graph, d as int) == first_at_depth_from(*graph, d as int, i as int),
        decreases n - i,
    {
        if graph_node(graph, i).depth == d {
            return Some(i);
        }
        i += 1;
    }
    None
}

fn find_named(graph: &DepGraph, name: &String) -> (r: Option<usize>)
    ensures
        r == node_named(*graph, name@),
{
    let n = graph_node_count(graph);
    let mut i: usize = 0;
    while i < n
        invariant
            n == graph_nodes(*graph).len(),
            i <= n,
            node_named(*graph, name@) == node_named_from(*graph, name@, i as int),
        decreases n - i,
    {
        if graph_node(graph, i).relative_path == *name {
            return Some(i);
        }
        i += 1;
    }
    None
}

fn find_index(v: &Vec<usize>, x: usize) -> (r: Option<usize>)
    ensures
        r matches Some(p) ==> index_from(v@, x, 0) == Some(p as int) && p < v@.len(),
        r is None ==> index_from(v@, x, 0) is None,
{
    let mut i: usize = 0;
    while i < v.len()
        invariant
            i <= v@.len(),
            index_from(v@, x, 0) == index_from(v@, x, i as int),
        decreases v.len() - i,
    {
        if v[i] == x {
            return Some(i);
        }
        i += 1;
    }
    None
}

/// The relative paths of all nodes, as characters.
fn path_keys(graph: &DepGraph) -> (keys: Vec<Vec<char>>)
    ensures
        keys@.len() == graph_nodes(*graph).len(),
        forall|i: int| 0 <= i < keys@.len() ==> #[trigger] keys@[i]@ == node_path(*graph, i),
{
    let n = graph_node_count(graph);
    let mut keys: Vec<Vec<char>> = Vec::new();
    let mut i: usize = 0;
    while i < n
        invariant
            n == graph_nodes(*graph).len(),
            i <= n,
            keys@.len() == i,
            forall|j: int| 0 <= j < i ==> #[trigger] keys@[j]@ == node_path(*graph, j),
        decreases n - i,
    {
        keys.push(chars_of(graph_node(graph, i).relative_path.as_str()));
        i += 1;
    }
    keys
}

/// The node after (`forward`) or before `cur` among the nodes at its depth, sorted by
/// path, wrapping around; none when `cur` is not found among them.
pub open spec fn layer_step(g: DepGraph, cur: usize, forward: bool) -> Option<usize> {
    let grp = depth_group(g, graph_nodes(g)[cur as int].depth);
    match index_from(grp, cur, 0) {
        Some(pos) => Some(
            if forward {
                grp[(pos + 1) % (grp.len() as int)]
            } else if pos == 0 {
                grp[grp.len() - 1]
            } else {
                grp[pos - 1]
            },
        ),
        None => None,
    }
}

proof fn lemma_index_found(s: Seq<usize>, x: usize, i: int, k: int)
    requires
        0 <= i <= k < s.len(),
        s[k] == x,
        forall|j: int| i <= j < k ==> s[j] != x,
    ensures
        index_from(s, x, i) == Some(k),
    decreases k - i,
{
    if i < k {
        lemma_index_found(s, x, i + 1, k);
    }
}

proof fn lemma_wrap(pos: int, len: int)
    requires
        0 <= pos < len,
    ensures
        (pos + 1) % len == if pos + 1 < len { pos + 1 } else { 0 },
{
    if pos + 1 < len {
        vstd::arithmetic::div_mod::lemma_small_mod((pos + 1) as nat, len as nat);
    } else {
        vstd::arithmetic::div_mod::lemma_mod_self_0(len);
    }
}

/// Stepping to the next node of a layer and back returns to where one started, and so
/// does stepping back and then forward.
pub proof fn law_layer_steps_undo(g: DepGraph, c: usize)
    requires
        c < graph_nodes(g).len(),
        graph_nodes(g).len() <= usize::MAX,
    ensures
        layer_step(g, c, true) matches Some(x) && layer_step(g, x, false) == Some(c),
        layer_step(g, c, false) matches Some(x) && layer_step(g, x, true) == Some(c),
{
    let n = graph_nodes(g).len() as int;
    let d = graph_nodes(g)[c as int].depth;
    let grp = depth_group(g, d);
    lemma_group(g, d, n);
    assert(group_upto(g, d, n).contains((c as int) as usize));
    assert(grp.contains(c));
    let pos = choose|k: int| 0 <= k < grp.len() && grp[k] == c;
    lemma_index_found(grp, c, 0, pos);
    let len = grp.len() as int;
    lemma_wrap(pos, len);
    // forward, then back
    let q = (pos + 1) % len;
    let x = grp[q];
    assert(graph_nodes(g)[x as int].depth == d);
    lemma_index_found(grp, x, 0, q);
    assert(layer_step(g, c, true) == Some(x));
    if q == 0 {
        assert(pos == len - 1);
    } else {
        assert(q - 1 == pos);
    }
    assert(layer_step(g, x, false) == Some(c));
    // back, then forward
    let p = if pos == 0 { len - 1 } else { pos - 1 };
    let y = grp[p];
    assert(graph_nodes(g)[y as int].depth == d);
    lemma_index_found(grp, y, 0, p);
    lemma_wrap(p, len);
    assert(layer_step(g, c, false) == Some(y));
    assert(layer_step(g, y, true) == Some(c));
}

/// The selection after a step within the layer: unchanged when nothing is selected or
/// the step finds nothing.
pub open spec fn after_layer_step(g: DepGraph, sel: Option<usize>, forward: bool) -> Option<usize> {
    match sel {
        Some(c) => match layer_step(g, c, forward) {
            Some(x) => Some(x),
            None => sel,
        },
        None => None,
    }
}

/// The value `v` held to -100..=100.
pub open spec fn clamp100(v: int) -> i16 {
    if v < -100 {
        -100i16
    } else if v > 100 {
        100i16
    } else {
        v as i16
    }
}

// ---------------------------------------------------------------------------
// Search
// ---------------------------------------------------------------------------

/// The lower-case form of a text, as `str::to_lowercase` gives it (Unicode case mapping).
pub uninterp spec fn lowercase(s: Seq<char>) -> Seq<char>;

/// The lower-case form of a text (`str::to_lowercase`), named `lowercase`: the Unicode
/// tables behind it are not restated here.
#[verifier::external_body]
fn to_lower(s: &str) -> (r: String)
    ensures
        r@ == lowercase(s@),
{
    s.to_lowercase()
}

/// The indices below `upto` of the paths that contain `query`.
pub open spec fn matches_upto(paths: Seq<Seq<char>>, query: Seq<char>, upto: int) -> Seq<usize>
    decreases upto,
{
    if upto <= 0 {
        seq![]
    } else {
        let rest = matches_upto(paths, query, upto - 1);
        if find(paths[upto - 1], query) is Some {
            rest.push((upto - 1) as usize)
        } else {
            rest
        }
    }
}

/// The indices of the (lower-cased) paths that contain the (lower-cased) query, in order.
pub fn matching_nodes(lowered_paths: &Vec<String>, lowered_query: &str) -> (r: Vec<usize>)
    ensures
        r@ == matches_upto(views(lowered_paths@), lowered_query@, lowered_paths@.len() as int),
{
    let q = chars_of(lowered_query);
    let mut r: Vec<usize> = Vec::new();
    let mut i: usize = 0;
    while i < lowered_paths.len()
        invariant
            i <= lowered_paths@.len(),
            q@ == lowered_query@,
            r@ == matches_upto(views(lowered_paths@), lowered_query@, i as int),
        decreases lowered_paths.len() - i,
    {
        let p = chars_of(lowered_paths[i].as_str());
        assert(views(lowered_paths@)[i as int] == lowered_paths@[i as int]@);
        if find_chars(&p, &q).is_some() {
            r.push(i);
        }
        i += 1;
    }
    r
}

/// The lower-cased paths of the nodes.
pub open spec fn lowered_paths(g: DepGraph) -> Seq<Seq<char>> {
    Seq::new(graph_nodes(g).len(), |i: int| lowercase(node_path(g, i)))
}

/// The nodes whose path contains the query, both lower-cased; none for an empty query.
pub open spec fn search_matches(g: DepGraph, query: Seq<char>) -> Seq<usize> {
    if query.len() == 0 {
        seq![]
    } else {
        matches_upto(lowered_paths(g), lowercase(query), graph_nodes(g).len() as int)
    }
}

proof fn lemma_occurrence_found(s: Seq<char>, p: Seq<char>, from: int, at: int)
    requires
        0 <= from <= at,
        at + p.len() <= s.len(),
        s.subrange(at, at + p.len()) == p,
    ensures
        crate::text::find_from(s, p, from) is Some,
    decreases at - from,
{
    if from < at && s.subrange(from, from + p.len()) != p {
        lemma_occurrence_found(s, p, from + 1, at);
    }
}

proof fn lemma_matches_upto_has(paths: Seq<Seq<char>>, q: Seq<char>, upto: int, i: int)
    requires
        0 <= i < upto <= paths.len(),
        upto <= usize::MAX + 1,
        find(paths[i], q) is Some,
    ensures
        matches_upto(paths, q, upto).contains(i as usize),
    decreases upto,
{
    let rest = matches_upto(paths, q, upto - 1);
    if i < upto - 1 {
        lemma_matches_upto_has(paths, q, upto - 1, i);
        let k = choose|k: int| 0 <= k < rest.len() && rest[k] == i as usize;
        if find(paths[upto - 1], q) is Some {
            assert(rest.push((upto - 1) as usize)[k] == i as usize);
        }
    } else {
        assert(rest.push((upto - 1) as usize)[rest.len() as int] == i as usize);
    }
}

/// Search finds a file wherever the query occurs in its relative path, case aside: when the
/// lower-cased path is some text, then the lower-cased query, then more text, the node is
/// among the results (as `kernel` finds `kernel/scheduler.zig`).
pub proof fn law_search_finds_every_occurrence(g: DepGraph, query: Seq<char>, i: int, before: Seq<char>, after: Seq<char>)
    requires
        query.len() > 0,
        0 <= i < graph_nodes(g).len(),
        graph_nodes(g).len() <= usize::MAX,
        lowercase(graph_nodes(g)[i].relative_path@) == before + lowercase(query) + after,
    ensures
        search_matches(g, query).contains(i as usize),
{
    let s = lowered_paths(g)[i];
    let lq = lowercase(query);
    assert(s == before + lq + after);
    assert(s.subrange(before.len() as int, (before.len() + lq.len()) as int) =~= lq);
    lemma_occurrence_found(s, lq, 0, before.len() as int);
    lemma_matches_upto_has(lowered_paths(g), lq, graph_nodes(g).len() as int, i);
}

proof fn lemma_found_occurrence(s: Seq<char>, p: Seq<char>, from: int)
    requires
        crate::text::find_from(s, p, from) is Some,
    ensures
        ({
            let k = crate::text::find_from(s, p, from)->0;
            0 <= k && k + p.len() <= s.len() && s.subrange(k, k + p.len()) == p
        }),
    decreases s.len() - from,
{
    if !(from < 0 || from + p.len() > s.len()) && s.subrange(from, from + p.len()) != p && from < s.len() {
        lemma_found_occurrence(s, p, from + 1);
    }
}

proof fn lemma_matches_upto_only(paths: Seq<Seq<char>>, q: Seq<char>, upto: int, j: usize)
    requires
        0 <= upto <= paths.len(),
        upto <= usize::MAX + 1,
        matches_upto(paths, q, upto).contains(j),
    ensures
        j < upto,
        find(paths[j as int], q) is Some,
    decreases upto,
{
    let rest = matches_upto(paths, q, upto - 1);
    if rest.contains(j) {
        lemma_matches_upto_only(paths, q, upto - 1, j);
    } else {
        let all = matches_upto(paths, q, upto);
        let k = choose|k: int| 0 <= k < all.len() && all[k] == j;
        if k < rest.len() {
            assert(rest[k] == j);
        }
        assert(find(paths[upto - 1], q) is Some);
        assert(all[k] == (upto - 1) as usize);
        assert(j as int == upto - 1);
    }
}

/// Search finds nothing else: every result is a node whose lower-cased relative path holds
/// the lower-cased query somewhere.
pub proof fn law_search_results_hold_the_query(g: DepGraph, query: Seq<char>, j: usize)
    requires
        graph_nodes(g).len() <= usize::MAX,
        search_matches(g, query).contains(j),
    ensures
        j < graph_nodes(g).len(),
        exists|before: Seq<char>, after: Seq<char>|
            #[trigger] lowercase(graph_nodes(g)[j as int].relative_path@) == before + lowercase(query) + after,
{
    let lq = lowercase(query);
    lemma_matches_upto_only(lowered_paths(g), lq, graph_nodes(g).len() as int, j);
    let s = lowered_paths(g)[j as int];
    lemma_found_occurrence(s, lq, 0);
    let k = crate::text::find_from(s, lq, 0)->0;
    let before = s.take(k);
    let after = s.skip(k + lq.len());
    assert(s =~= before + lq + after) by {
        assert(s.subrange(k, k + lq.len()) == lq);
    }
}

proof fn lemma_matches_upto_increasing(paths: Seq<Seq<char>>, q: Seq<char>, upto: int)
    requires
        0 <= upto <= paths.len(),
        upto <= usize::MAX + 1,
    ensures
        forall|a: int, b: int| 0 <= a < b < matches_upto(paths, q, upto).len() ==> #[trigger] matches_upto(paths, q, upto)[a]
            < #[trigger] matches_upto(paths, q, upto)[b],
        forall|a: int| 0 <= a < matches_upto(paths, q, upto).len() ==> #[trigger] matches_upto(paths, q, upto)[a] < upto,
    decreases upto,
{
    if upto > 0 {
        lemma_matches_upto_increasing(paths, q, upto - 1);
        let rest = matches_upto(paths, q, upto - 1);
        let all = matches_upto(paths, q, upto);
        assert forall|a: int| 0 <= a < all.len() implies #[trigger] all[a] < upto by {
            if a < rest.len() {
                assert(all[a] == rest[a]);
            }
        }
        assert forall|a: int, b: int| 0 <= a < b < all.len() implies #[trigger] all[a] < #[trigger] all[b] by {
            assert(all[a] == rest[a]);
            if b < rest.len() {
                assert(all[b] == rest[b]);
            }
        }
    }
}

/// Search results come in node order, each once, so the first result selected is the
/// first matching file.
pub proof fn law_search_results_in_node_order(g: DepGraph, query: Seq<char>)
    requires
        graph_nodes(g).len() <= usize::MAX,
    ensures
        forall|a: int, b: int| 0 <= a < b < search_matches(g, query).len() ==> #[trigger] search_matches(g, query)[a]
            < #[trigger] search_matches(g, query)[b],
{
    if query.len() > 0 {
        lemma_matches_upto_increasing(lowered_paths(g), lowercase(query), graph_nodes(g).len() as int);
    }
}

// ---------------------------------------------------------------------------
// Cycle navigation
// ---------------------------------------------------------------------------

/// `acc` with `x` added unless it is there already.
pub open spec fn add_new(acc: Seq<Seq<char>>, x: Seq<char>) -> Seq<Seq<char>> {
    if acc.contains(x) {
        acc
    } else {
        acc.push(x)
    }
}

/// `acc` with the first `k` names of `names` added, each unless there already.
pub open spec fn add_names(acc: Seq<Seq<char>>, names: Seq<Seq<char>>, k: int) -> Seq<Seq<char>>
    decreases k,
{
    if k <= 0 {
        acc
    } else {
        add_new(add_names(acc, names, k - 1), names[k - 1])
    }
}

/// The files of the first `i` cycles, each once, in order of first appearance.
pub open spec fn cycle_files_upto(cycles: Seq<CycleView>, i: int) -> Seq<Seq<char>>
    decreases i,
{
    if i <= 0 {
        seq![]
    } else {
        add_names(cycle_files_upto(cycles, i - 1), cycles[i - 1].nodes, cycles[i - 1].nodes.len() as int)
    }
}

/// The files of all cycles, each once, in order of first appearance.
pub open spec fn cycle_files(cycles: Seq<CycleView>) -> Seq<Seq<char>> {
    cycle_files_upto(cycles, cycles.len() as int)
}

fn contains_name(v: &Vec<String>, x: &String) -> (b: bool)
    ensures
        b == views(v@).contains(x@),
{
    let mut i: usize = 0;
    while i < v.len()
        invariant
            i <= v@.len(),
            forall|j: int| 0 <= j < i ==> #[trigger] views(v@)[j] != x@,
        decreases v.len() - i,
    {
        if v[i] == *x {
            assert(views(v@)[i as int] == x@);
            return true;
        }
        i += 1;
    }
    false
}

/// The files of all cycles, each once, in order of first appearance.
pub fn distinct_cycle_files(cycles: &Vec<Cycle>) -> (r: Vec<String>)
    ensures
        views(r@) == cycle_files(cycle_views(cycles@)),
{
    let ghost cs = cycle_views(cycles@);
    let mut r: Vec<String> = Vec::new();
    let mut i: usize = 0;
    while i < cycles.len()
        invariant
            i <= cycles@.len(),
            cs == cycle_views(cycles@),
            views(r@) == cycle_files_upto(cs, i as int),
        decreases cycles.len() - i,
    {
        let nodes = &cycles[i].nodes;
        let ghost names = cs[i as int].nodes;
        let ghost start = views(r@);
        assert(names == views(nodes@));
        let mut k: usize = 0;
        while k < nodes.len()
            invariant
                k <= nodes@.len(),
                names == views(nodes@),
                views(r@) == add_names(start, names, k as int),
            decreases nodes.len() - k,
        {
            let ghost before = views(r@);
            assert(names[k as int] == nodes@[k as int]@);
            if !contains_name(&r, &nodes[k]) {
                r.push(nodes[k].clone());
                assert(views(r@) =~= before.push(nodes@[k as int]@));
            }
            k += 1;
        }
        i += 1;
    }
    r
}

/// Which panels are on screen, as (graph, details, alerts): on a terminal at least 80
/// columns wide the graph panel is shown with the details beside it; otherwise only the
/// active panel is shown.
pub fn visible_panels(panel: ActivePanel, width: u16) -> (r: (bool, bool, bool))
    ensures
        r == (if panel == ActivePanel::Graph && width >= 80 {
            (true, true, false)
        } else {
            (panel == ActivePanel::Graph, panel == ActivePanel::Details, panel == ActivePanel::Alerts)
        }),
{
    if panel == ActivePanel::Graph && width >= 80 {
        (true, true, false)
    } else {
        (panel == ActivePanel::Graph, panel == ActivePanel::Details, panel == ActivePanel::Alerts)
    }
}

/// The state after a jump to the next file on a cycle: the files of all cycles, each once,
/// in order; the position moves one on, wrapping around, and the file's node is selected
/// with the graph panel shown. Without cycles nothing changes.
pub open spec fn after_next_cycle(app: App) -> App {
    let files = cycle_files(cycle_views(app.analysis.cycles@));
    if files.len() == 0 {
        app
    } else {
        let k = ((app.cycle_index + 1) % (files.len() as int)) as usize;
        let moved = App { cycle_index: k, ..app };
        match node_named(app.graph, files[k as int]) {
            Some(x) => App { selected_node: Some(x), panel: ActivePanel::Graph, ..moved },
            None => moved,
        }
    }
}

impl App {
    /// The selection, if any, names a node of the graph.
    pub open spec fn wf(&self) -> bool {
        self.selected_node matches Some(i) ==> i < graph_nodes(self.graph).len()
    }

    /// Create the state for a graph and its analysis: the first node selected (if any), the
    /// layout computed, normal mode on the graph panel, nothing scrolled or searched, layer
    /// colors on.
    pub fn new(graph: DepGraph, analysis: AnalysisResult) -> (app: Self)
        requires
            fits_layout(graph),
        ensures
            app.graph == graph,
            app.analysis == analysis,
            app.selected_node == (if graph_nodes(graph).len() > 0 { Some(0usize) } else { None::<usize> }),
            app.mode == ViewMode::Normal,
            app.panel == ActivePanel::Graph,
            !app.should_quit,
            is_layout_of(app.layout, graph),
            app.viewport_offset == (0i16, 0i16),
            app.details_scroll == 0,
            app.selected_alert == 0,
            !app.show_help,
            app.show_layer_colors,
            app.search_query@.len() == 0,
            app.search_results@.len() == 0,
            app.cycle_index == 0,
            app.wf(),
    {
        let selected_node = if graph_node_count(&graph) > 0 { Some(0) } else { None };
        let layout = GraphLayout::compute(&graph);
        App {
            graph,
            analysis,
            selected_node,
            mode: ViewMode::Normal,
            panel: ActivePanel::Graph,
            should_quit: false,
            layout,
            viewport_offset: (0, 0),
            details_scroll: 0,
            selected_alert: 0,
            show_help: false,
            show_layer_colors: true,
            search_query: String::new(),
            search_results: Vec::new(),
            cycle_index: 0,
        }
    }

    /// Mark the application for quitting.
    pub fn quit(&mut self)
        ensures
            *final(self) == (App { should_quit: true, ..*old(self) }),
    {
        self.should_quit = true;
    }

    fn step_in_layer(&mut self, forward: bool)
        requires
            old(self).wf(),
        ensures
            *final(self) == (App { selected_node: after_layer_step(old(self).graph, old(self).selected_node, forward), ..*old(self) }),
    {
        if let Some(cur) = self.selected_node {
            let d = graph_node(&self.graph, cur).depth;
            let keys = path_keys(&self.graph);
            let group = nodes_at_depth(&self.graph, &keys, d);
            let glen = group.len();
            match find_index(&group, cur) {
                Some(pos) => {
                    assert(pos < glen);
                    let next = if forward {
                        group[(pos + 1) % group.len()]
                    } else if pos == 0 {
                        group[group.len() - 1]
                    } else {
                        group[pos - 1]
                    };
                    self.selected_node = Some(next);
                },
                None => {},
            }
        }
    }

    /// Select the next node at the same depth, in path order, wrapping around.
    pub fn select_next_in_layer(&mut self)
        requires
            old(self).wf(),
        ensures
            *final(self) == (App { selected_node: after_layer_step(old(self).graph, old(self).selected_node, true), ..*old(self) }),
    {
        self.step_in_layer(true)
    }

    /// Select the previous node at the same depth, in path order, wrapping around.
    pub fn select_prev_in_layer(&mut self)
        requires
            old(self).wf(),
        ensures
            *final(self) == (App { selected_node: after_layer_step(old(self).graph, old(self).selected_node, false), ..*old(self) }),
    {
        self.step_in_layer(false)
    }

    /// Select the first node one level deeper than the selected one, if there is one. The
    /// selected node's depth must be below `usize::MAX`.
    pub fn select_next_layer(&mut self)
        requires
            old(self).wf(),
            old(self).selected_node matches Some(c) ==> graph_nodes(old(self).graph)[c as int].depth < usize::MAX,
        ensures
            *final(self) == (App {
                selected_node: match old(self).selected_node {
                    Some(c) => match first_at_depth(old(self).graph, graph_nodes(old(self).graph)[c as int].depth + 1) {
                        Some(x) => Some(x),
                        None => Some(c),
                    },
                    None => None,
                },
                ..*old(self)
            }),
    {
        if let Some(cur) = self.selected_node {
            let d = graph_node(&self.graph, cur).depth;
            if let Some(next) = find_at_depth(&self.graph, d + 1) {
                self.selected_node = Some(next);
            }
        }
    }

    /// Select the first node one level shallower than the selected one, if there is one.
    pub fn select_prev_layer(&mut self)
        requires
            old(self).wf(),
        ensures
            *final(self) == (App {
                selected_node: match old(self).selected_node {
                    Some(c) => if graph_nodes(old(self).graph)[c as int].depth > 0 {
                        match first_at_depth(old(self).graph, graph_nodes(old(self).graph)[c as int].depth - 1) {
                            Some(x) => Some(x),
                            None => Some(c),
                        }
                    } else {
                        Some(c)
                    },
                    None => None,
                },
                ..*old(self)
            }),
    {
        if let Some(cur) = self.selected_node {
            let d = graph_node(&self.graph, cur).depth;
            if d > 0 {
                if let Some(prev) = find_at_depth(&self.graph, d - 1) {
                    self.selected_node = Some(prev);
                }
            }
        }
    }

    /// Scroll the viewport by (`dx`, `dy`), each coordinate held to -100..=100. The sums
    /// must fit in an `i16`.
    pub fn scroll_viewport(&mut self, dx: i16, dy: i16)
        requires
            i16::MIN <= old(self).viewport_offset.0 + dx <= i16::MAX,
            i16::MIN <= old(self).viewport_offset.1 + dy <= i16::MAX,
        ensures
            *final(self) == (App {
                viewport_offset: (clamp100(old(self).viewport_offset.0 + dx), clamp100(old(self).viewport_offset.1 + dy)),
                ..*old(self)
            }),
    {
        let x = self.viewport_offset.0 + dx;
        let y = self.viewport_offset.1 + dy;
        let cx = if x < -100 { -100 } else if x > 100 { 100 } else { x };
        let cy = if y < -100 { -100 } else if y > 100 { 100 } else { y };
        self.viewport_offset = (cx, cy);
    }

    /// Scroll the details panel down one line (saturating).
    pub fn scroll_details_down(&mut self)
        ensures
            *final(self) == (App {
                details_scroll: if old(self).details_scroll < usize::MAX { (old(self).details_scroll + 1) as usize } else { usize::MAX },
                ..*old(self)
            }),
    {
        self.details_scroll = self.details_scroll.saturating_add(1);
    }

    /// Scroll the details panel up one line (saturating).
    pub fn scroll_details_up(&mut self)
        ensures
            *final(self) == (App {
                details_scroll: if old(self).details_scroll > 0 { (old(self).details_scroll - 1) as usize } else { 0 },
                ..*old(self)
            }),
    {
        self.details_scroll = self.details_scroll.saturating_sub(1);
    }

    /// The number of alerts: one per cycle and one per violation.
    pub open spec fn alert_count(&self) -> int {
        (self.analysis.cycles@.len() + self.analysis.violations@.len()) as int
    }

    /// Move to the next alert, wrapping around; nothing happens without alerts.
    pub fn next_alert(&mut self)
        requires
            old(self).alert_count() <= usize::MAX,
            old(self).alert_count() > 0 ==> old(self).selected_alert < usize::MAX,
        ensures
            *final(self) == (App {
                selected_alert: if old(self).alert_count() > 0 {
                    ((old(self).selected_alert + 1) % old(self).alert_count()) as usize
                } else {
                    old(self).selected_alert
                },
                ..*old(self)
            }),
    {
        let total = self.analysis.cycles.len() + self.analysis.violations.len();
        if total > 0 {
            self.selected_alert = (self.selected_alert + 1) % total;
        }
    }

    /// Move to the previous alert, wrapping around; nothing happens without alerts.
    pub fn prev_alert(&mut self)
        requires
            old(self).alert_count() <= usize::MAX,
        ensures
            *final(self) == (App {
                selected_alert: if old(self).alert_count() > 0 {
                    if old(self).selected_alert == 0 {
                        (old(self).alert_count() - 1) as usize
                    } else {
                        (old(self).selected_alert - 1) as usize
                    }
                } else {
                    old(self).selected_alert
                },
                ..*old(self)
            }),
    {
        let total = self.analysis.cycles.len() + self.analysis.violations.len();
        if total > 0 {
            self.selected_alert = if self.selected_alert == 0 { total - 1 } else { self.selected_alert - 1 };
        }
    }

    /// The file an alert points at: a cycle's first file, or a violation's importing file.
    pub open spec fn alert_file(&self) -> Option<Seq<char>> {
        let cycles = self.analysis.cycles@;
        let violations = self.analysis.violations@;
        if self.selected_alert < cycles.len() {
            if cycles[self.selected_alert as int].nodes@.len() > 0 {
                Some(cycles[self.selected_alert as int].nodes@[0]@)
            } else {
                None
            }
        } else if self.selected_alert - cycles.len() < violations.len() {
            Some(violations[self.selected_alert - cycles.len()].file@)
        } else {
            None
        }
    }

    /// Select the node of the file the selected alert points at, and show the graph panel;
    /// nothing happens when there is no such file or node.
    pub fn jump_to_selected_alert(&mut self)
        ensures
            *final(self) == (match old(self).alert_file() {
                Some(f) => match node_named(old(self).graph, f) {
                    Some(x) => App { selected_node: Some(x), panel: ActivePanel::Graph, ..*old(self) },
                    None => *old(self),
                },
                None => *old(self),
            }),
    {
        let cycles_count = self.analysis.cycles.len();
        let found = if self.selected_alert < cycles_count {
            let cycle = &self.analysis.cycles[self.selected_alert];
            if cycle.nodes.len() > 0 {
                find_named(&self.graph, &cycle.nodes[0])
            } else {
                None
            }
        } else {
            let vi = self.selected_alert - cycles_count;
            if vi < self.analysis.violations.len() {
                find_named(&self.graph, &self.analysis.violations[vi].file)
            } else {
                None
            }
        };
        if let Some(idx) = found {
            self.selected_node = Some(idx);
            self.panel = ActivePanel::Graph;
        }
    }

    /// Toggle the help overlay.
    pub fn toggle_help(&mut self)
        ensures
            *final(self) == (App { show_help: !old(self).show_help, ..*old(self) }),
    {
        self.show_help = !self.show_help;
    }

    /// Toggle layer colors.
    pub fn toggle_layer_colors(&mut self)
        ensures
            *final(self) == (App { show_layer_colors: !old(self).show_layer_colors, ..*old(self) }),
    {
        self.show_layer_colors = !self.show_layer_colors;
    }

    /// Toggle the imports view mode (back to normal when already in it).
    pub fn enter_imports_mode(&mut self)
        ensures
            *final(self) == (App {
                mode: if old(self).mode == ViewMode::Imports { ViewMode::Normal } else { ViewMode::Imports },
                ..*old(self)
            }),
    {
        if self.mode == ViewMode::Imports {
            self.mode = ViewMode::Normal;
        } else {
            self.mode = ViewMode::Imports;
        }
    }

    /// Toggle the dependents view mode (back to normal when already in it).
    pub fn enter_dependents_mode(&mut self)
        ensures
            *final(self) == (App {
                mode: if old(self).mode == ViewMode::Dependents { ViewMode::Normal } else { ViewMode::Dependents },
                ..*old(self)
            }),
    {
        if self.mode == ViewMode::Dependents {
            self.mode = ViewMode::Normal;
        } else {
            self.mode = ViewMode::Dependents;
        }
    }

    /// Enter search mode with an empty query and no results.
    pub fn enter_search_mode(&mut self)
        ensures
            *final(self) == (App {
                mode: ViewMode::Search,
                search_query: final(self).search_query,
                search_results: final(self).search_results,
                ..*old(self)
            }),
            final(self).search_query@.len() == 0,
            final(self).search_results@.len() == 0,
    {
        self.mode = ViewMode::Search;
        self.search_query = String::new();
        self.search_results = Vec::new();
    }

    /// Leave search mode, clearing the query and the results.
    pub fn exit_search_mode(&mut self)
        ensures
            *final(self) == (App {
                mode: ViewMode::Normal,
                search_query: final(self).search_query,
                search_results: final(self).search_results,
                ..*old(self)
            }),
            final(self).search_query@.len() == 0,
            final(self).search_results@.len() == 0,
    {
        self.mode = ViewMode::Normal;
        self.search_query = String::new();
        self.search_results = Vec::new();
    }

    /// Replace the query, recompute the results, and select the first result, if any.
    fn set_query(&mut self, query: Vec<char>)
        ensures
            *final(self) == (App {
                search_query: final(self).search_query,
                search_results: final(self).search_results,
                selected_node: if search_matches(old(self).graph, query@).len() > 0 {
                    Some(search_matches(old(self).graph, query@)[0])
                } else {
                    old(self).selected_node
                },
                ..*old(self)
            }),
            final(self).search_query@ == query@,
            final(self).search_results@ == search_matches(old(self).graph, query@),
    {
        let q = string_from_chars(&query);
        if query.len() == 0 {
            self.search_query = q;
            self.search_results = Vec::new();
            return;
        }
        let n = graph_node_count(&self.graph);
        let mut lowered: Vec<String> = Vec::new();
        let mut i: usize = 0;
        while i < n
            invariant
                n == graph_nodes(self.graph).len(),
                i <= n,
                views(lowered@) == lowered_paths(self.graph).take(i as int),
            decreases n - i,
        {
            let l = to_lower(graph_node(&self.graph, i).relative_path.as_str());
            let ghost before = views(lowered@);
            lowered.push(l);
            assert(views(lowered@) =~= before.push(l@));
            assert(lowered_paths(self.graph).take(i + 1) =~= lowered_paths(self.graph).take(i as int).push(lowercase(node_path(self.graph, i as int))));
            i += 1;
        }
        assert(lowered_paths(self.graph).take(n as int) =~= lowered_paths(self.graph));
        let lq = to_lower(q.as_str());
        let results = matching_nodes(&lowered, lq.as_str());
        if results.len() > 0 {
            self.selected_node = Some(results[0]);
        }
        self.search_query = q;
        self.search_results = results;
    }

    /// Add a character to the search query and update the results: the nodes whose
    /// path contains the query, case-insensitively, the first of which is selected.
    pub fn search_input(&mut self, c: char)
        ensures
            *final(self) == (App {
                search_query: final(self).search_query,
                search_results: final(self).search_results,
                selected_node: if search_matches(old(self).graph, old(self).search_query@.push(c)).len() > 0 {
                    Some(search_matches(old(self).graph, old(self).search_query@.push(c))[0])
                } else {
                    old(self).selected_node
                },
                ..*old(self)
            }),
            final(self).search_query@ == old(self).search_query@.push(c),
            final(self).search_results@ == search_matches(old(self).graph, old(self).search_query@.push(c)),
    {
        let mut q = chars_of(self.search_query.as_str());
        q.push(c);
        self.set_query(q);
    }

    /// Remove the last character of the search query, if any, and update the results.
    pub fn search_backspace(&mut self)
        ensures
            *final(self) == (App {
                search_query: final(self).search_query,
                search_results: final(self).search_results,
                selected_node: if search_matches(old(self).graph, old(self).search_query@.take(old(self).search_query@.len() - 1)).len() > 0 && old(self).search_query@.len() > 0 {
                    Some(search_matches(old(self).graph, old(self).search_query@.take(old(self).search_query@.len() - 1))[0])
                } else {
                    old(self).selected_node
                },
                ..*old(self)
            }),
            old(self).search_query@.len() > 0 ==> final(self).search_query@ == old(self).search_query@.drop_last(),
            old(self).search_query@.len() == 0 ==> final(self).search_query@.len() == 0,
            final(self).search_results@ == (if old(self).search_query@.len() > 0 {
                search_matches(old(self).graph, old(self).search_query@.drop_last())
            } else {
                Seq::<usize>::empty()
            }),
    {
        let mut q = chars_of(self.search_query.as_str());
        if q.len() > 0 {
            q.pop();
            assert(q@ =~= old(self).search_query@.take(old(self).search_query@.len() - 1));
        }
        self.set_query(q);
    }

    /// Leave search mode for the details panel, when there are results and a selection.
    pub fn select_search_result(&mut self)
        ensures
            old(self).search_results@.len() > 0 && old(self).selected_node is Some ==> {
                &&& *final(self) == (App {
                    mode: ViewMode::Normal,
                    panel: ActivePanel::Details,
                    search_query: final(self).search_query,
                    search_results: final(self).search_results,
                    ..*old(self)
                })
                &&& final(self).search_query@.len() == 0
                &&& final(self).search_results@.len() == 0
            },
            !(old(self).search_results@.len() > 0 && old(self).selected_node is Some) ==> *final(self) == *old(self),
    {
        if self.search_results.len() > 0 && self.selected_node.is_some() {
            self.exit_search_mode();
            self.panel = ActivePanel::Details;
        }
    }

    /// Move to the next file on a cycle (files of all cycles, each once, in order),
    /// wrapping around, and select its node with the graph panel shown; nothing happens
    /// without cycles. The cycle position must be below `usize::MAX`.
    pub fn jump_to_next_cycle(&mut self)
        requires
            old(self).cycle_index < usize::MAX,
        ensures
            *final(self) == after_next_cycle(*old(self)),
    {
        if self.analysis.cycles.len() == 0 {
            assert(cycle_files(cycle_views(self.analysis.cycles@)) =~= seq![]);
            return;
        }
        let files = distinct_cycle_files(&self.analysis.cycles);
        if files.len() == 0 {
            return;
        }
        self.cycle_index = (self.cycle_index + 1) % files.len();
        let target = &files[self.cycle_index];
        if let Some(idx) = find_named(&self.graph, target) {
            self.selected_node = Some(idx);
            self.panel = ActivePanel::Graph;
        }
    }

    /// Show the details panel from the top, when a node is selected.
    pub fn switch_to_details(&mut self)
        ensures
            *final(self) == (if old(self).selected_node is Some {
                App { panel: ActivePanel::Details, details_scroll: 0, ..*old(self) }
            } else {
                *old(self)
            }),
    {
        if self.selected_node.is_some() {
            self.panel = ActivePanel::Details;
            self.details_scroll = 0;
        }
    }
}

} // verus!
