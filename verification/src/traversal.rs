//! Depth-first traversal of the module graph, done by
//! `petgraph::visit::depth_first_search`.

use crate::module_graph::{first_import, graph_imports, graph_modules, Dependency, JsModule, ModuleGraph};
use crate::roots::ChunkRoots;
use petgraph::graph::NodeIndex;
use petgraph::visit::{depth_first_search, Control, DfsEvent};
use petgraph::{Directed, Graph};
use vstd::prelude::*;

verus! {

/// An event of a depth-first search.
#[derive(Debug, Clone, Copy, PartialEq, Eq)]
pub enum DfsStep {
    /// The search enters a module.
    Discover(usize),
    /// The search follows an import to a module that it has not seen.
    TreeEdge(usize, usize),
    /// The search meets an import to a module that it has entered and not left.
    BackEdge(usize, usize),
    /// The search meets an import to a module that it has left.
    CrossForwardEdge(usize, usize),
    /// The search leaves a module.
    Finish(usize),
}

/// The events of the depth-first search of a graph with these imports from
/// the given start modules, in the order in which they are reported.
pub uninterp spec fn dfs_events(imports: Seq<Seq<(usize, bool)>>, starts: Seq<usize>) -> Seq<
    DfsStep,
>;

/// The modules other than `root` that a depth-first search from `root`
/// enters when it does not go on from the modules in `stops` other than `root`,
/// in the order in which it enters them.
pub uninterp spec fn dfs_claimed(
    imports: Seq<Seq<(usize, bool)>>,
    root: usize,
    stops: Set<usize>,
) -> Seq<usize>;

/// Whether an event speaks of modules and imports of the graph.
pub open spec fn step_in_graph(imports: Seq<Seq<(usize, bool)>>, step: DfsStep) -> bool {
    match step {
        DfsStep::Discover(n) => n < imports.len(),
        DfsStep::Finish(n) => n < imports.len(),
        DfsStep::TreeEdge(u, v) => u < imports.len() && v < imports.len() && first_import(
            imports[u as int],
            v,
        ) is Some,
        DfsStep::BackEdge(u, v) => u < imports.len() && v < imports.len() && first_import(
            imports[u as int],
            v,
        ) is Some,
        DfsStep::CrossForwardEdge(u, v) => u < imports.len() && v < imports.len() && first_import(
            imports[u as int],
            v,
        ) is Some,
    }
}

/// Whether every event of a trace speaks of modules and imports of the graph.
pub open spec fn trace_in_graph(imports: Seq<Seq<(usize, bool)>>, trace: Seq<DfsStep>) -> bool {
    forall|k: int| 0 <= k < trace.len() ==> step_in_graph(imports, #[trigger] trace[k])
}

/// Whether the event is the entering of `module`.
pub open spec fn enters(step: DfsStep, module: usize) -> bool {
    step == DfsStep::Discover(module)
}

/// Whether the event is the following of an import to `module`.
pub open spec fn follows_to(step: DfsStep, module: usize) -> bool {
    step matches DfsStep::TreeEdge(_, v) && v == module
}

/// Whether every import that the search follows leads to a module that it
/// has not entered before.
pub open spec fn tree_edges_lead_on(trace: Seq<DfsStep>) -> bool {
    forall|p: int, q: int, module: usize|
        0 <= q < p < trace.len() && #[trigger] follows_to(trace[p], module) ==> !#[trigger] enters(
            trace[q],
            module,
        )
}

/// Whether the claimed modules are closed under the imports of `root` and of
/// every claimed module at which the search does not stop.
pub open spec fn claims_closed(
    imports: Seq<Seq<(usize, bool)>>,
    root: usize,
    stops: Set<usize>,
    found: Seq<usize>,
) -> bool {
    forall|u: usize, k: int|
        #![trigger imports[u as int][k]]
        u < imports.len() && 0 <= k < imports[u as int].len() && (u == root || (found.contains(u)
            && !stops.contains(u))) && imports[u as int][k].0 != root ==> found.contains(
            imports[u as int][k].0,
        )
}

/// `depth_first_search` from several start nodes with a visitor that records
/// each event: every event names nodes of the graph, and an edge event an
/// edge of the graph. The search follows an edge as a tree edge only to a node
/// that it has not entered yet.
#[verifier::external_body]
fn graph_dfs(g: &Graph<JsModule, Dependency, Directed, usize>, starts: &Vec<usize>) -> (trace: Vec<
    DfsStep,
>)
    requires
        forall|i: int| 0 <= i < starts.len() ==> starts[i] < graph_modules(*g).len(),
    ensures
        trace@ == dfs_events(graph_imports(*g), starts@),
        trace_in_graph(graph_imports(*g), trace@),
        tree_edges_lead_on(trace@),
{
    let mut trace = Vec::new();
    depth_first_search(g, starts.iter().map(|s| NodeIndex::new(*s)), |event| {
        trace.push(match event {
            DfsEvent::Discover(n, _) => DfsStep::Discover(n.index()),
            DfsEvent::TreeEdge(u, v) => DfsStep::TreeEdge(u.index(), v.index()),
            DfsEvent::BackEdge(u, v) => DfsStep::BackEdge(u.index(), v.index()),
            DfsEvent::CrossForwardEdge(u, v) => DfsStep::CrossForwardEdge(u.index(), v.index()),
            DfsEvent::Finish(n, _) => DfsStep::Finish(n.index()),
        })
    });
    trace
}

/// `depth_first_search` from one start node with a visitor that hands each
/// node that is entered to `claim` and prunes where `claim` says so: the
/// nodes that were recorded are nodes of the graph other than the start. The
/// search enters every node to which an edge goes from the start or from a
/// node that it entered and did not prune.
#[verifier::external_body]
fn graph_dfs_claim(g: &Graph<JsModule, Dependency, Directed, usize>, root: usize, roots: &ChunkRoots) -> (found:
    Vec<usize>)
    requires
        root < graph_modules(*g).len(),
    ensures
        found@ == dfs_claimed(graph_imports(*g), root, roots@.dom()),
        forall|k: int| 0 <= k < found.len() ==> found[k] < graph_modules(*g).len() && found[k] != root,
        claims_closed(graph_imports(*g), root, roots@.dom(), found@),
{
    let mut found = Vec::new();
    depth_first_search(g, Some(NodeIndex::new(root)), |event| match event {
        DfsEvent::Discover(n, _) => if claim(&mut found, roots, root, n.index()) {
            Control::<()>::Prune
        } else {
            Control::Continue
        },
        _ => Control::Continue,
    });
    found
}

/// Records a module that a search from `root` enters, unless it is `root`
/// itself, and says whether the search stops there: at every other root.
pub fn claim(found: &mut Vec<usize>, roots: &ChunkRoots, root: usize, module: usize) -> (stop: bool)
    ensures
        module == root ==> !stop && final(found)@ == old(found)@,
        module != root ==> stop == roots@.dom().contains(module) && final(found)@ == old(
            found,
        )@.push(module),
{
    if module == root {
        return false;
    }
    found.push(module);
    roots.contains(module)
}

/// The events of the depth-first search from `starts`.
pub fn dfs_trace(modules: &ModuleGraph, starts: &Vec<usize>) -> (trace: Vec<DfsStep>)
    requires
        forall|i: int| 0 <= i < starts.len() ==> starts[i] < modules.modules().len(),
    ensures
        trace@ == dfs_events(modules.imports(), starts@),
        trace_in_graph(modules.imports(), trace@),
        tree_edges_lead_on(trace@),
{
    graph_dfs(modules.as_graph(), starts)
}

/// The modules that `root` claims: those that a search from `root` enters
/// without going on from another root.
pub fn claimed_modules(modules: &ModuleGraph, root: usize, roots: &ChunkRoots) -> (found: Vec<
    usize,
>)
    requires
        root < modules.modules().len(),
    ensures
        found@ == dfs_claimed(modules.imports(), root, roots@.dom()),
        forall|k: int| 0 <= k < found.len() ==> found[k] < modules.modules().len() && found[k] != root,
        claims_closed(modules.imports(), root, roots@.dom(), found@),
{
    graph_dfs_claim(modules.as_graph(), root, roots)
}

} // verus!
