//! Root reachability: for each root, the modules that a search from it
//! enters without going on from another root. The pairs are kept as the edges
//! of a `petgraph::Graph`, whose incoming neighbours of a module are the
//! roots that reach it.

use crate::module_graph::ModuleGraph;
use crate::roots::ChunkRoots;
use crate::traversal::{claimed_modules, claims_closed, dfs_claimed};
use petgraph::graph::NodeIndex;
use petgraph::Direction;
use petgraph::{Directed, Graph};
use vstd::prelude::*;

verus! {

/// The pairs of source and target that are joined by an edge of a graph
/// without weights.
pub uninterp spec fn graph_pairs(g: Graph<(), (), Directed, usize>) -> Set<(usize, usize)>;

/// `Graph::from_edges`: a graph with an edge for each pair, and with the nodes
/// that the pairs name.
#[verifier::external_body]
fn graph_from_edges(pairs: &Vec<(usize, usize)>) -> (g: Graph<(), (), Directed, usize>)
    requires
        forall|k: int| 0 <= k < pairs.len() ==> pairs[k].0 < usize::MAX && pairs[k].1 < usize::MAX,
    ensures
        graph_pairs(g) == pairs@.to_set(),
{
    Graph::from_edges(pairs)
}

/// `Graph::neighbors_directed`, incoming: the sources of the edges that
/// enter `target`, none if `target` is no node of the graph.
#[verifier::external_body]
fn graph_incoming(g: &Graph<(), (), Directed, usize>, target: usize) -> (sources: Vec<usize>)
    ensures
        forall|a: usize| sources@.contains(a) <==> graph_pairs(*g).contains((a, target)),
{
    g.neighbors_directed(NodeIndex::new(target), Direction::Incoming).map(|n| n.index()).collect()
}

/// The pairs of a root and a module that the root claims.
pub open spec fn claimed_pairs(
    imports: Seq<Seq<(usize, bool)>>,
    roots: Map<usize, (usize, usize)>,
) -> Set<(usize, usize)> {
    Set::new(
        |p: (usize, usize)|
            roots.dom().contains(p.0) && dfs_claimed(imports, p.0, roots.dom()).contains(p.1),
    )
}

/// The relation between the roots and the modules that they claim.
pub struct ReachableModules {
    graph: Graph<(), (), Directed, usize>,
}

impl View for ReachableModules {
    type V = Set<(usize, usize)>;

    closed spec fn view(&self) -> Set<(usize, usize)> {
        graph_pairs(self.graph)
    }
}

impl ReachableModules {
    /// The roots that claim `module`, in no particular order.
    pub fn roots_reaching(&self, module: usize) -> (found: Vec<usize>)
        ensures
            forall|a: usize| found@.contains(a) <==> self@.contains((a, module)),
    {
        graph_incoming(&self.graph, module)
    }

    /// The graph itself, to be read.
    pub fn as_graph(&self) -> (g: &Graph<(), (), Directed, usize>)
        ensures
            graph_pairs(*g) == self@,
    {
        &self.graph
    }
}

/// Whether every pair joins a root to another module of the graph.
pub open spec fn pairs_from_roots(
    pairs: Set<(usize, usize)>,
    roots: Map<usize, (usize, usize)>,
    count: nat,
) -> bool {
    forall|p: (usize, usize)| #[trigger]
        pairs.contains(p) ==> roots.dom().contains(p.0) && p.1 < count && p.1 != p.0
}

/// Whether the claims of every root are closed under the imports that the
/// search goes along.
pub open spec fn all_claims_closed(
    imports: Seq<Seq<(usize, bool)>>,
    roots: Map<usize, (usize, usize)>,
) -> bool {
    forall|root: usize| #[trigger]
        roots.dom().contains(root) ==> claims_closed(
            imports,
            root,
            roots.dom(),
            dfs_claimed(imports, root, roots.dom()),
        )
}

/// Determines for every root the modules that it claims.
pub fn collect_reachable_modules(modules: &ModuleGraph, roots: &ChunkRoots) -> (reachable:
    ReachableModules)
    requires
        roots.capacity() == modules.modules().len(),
    ensures
        reachable@ == claimed_pairs(modules.imports(), roots@),
        pairs_from_roots(reachable@, roots@, modules.modules().len()),
        all_claims_closed(modules.imports(), roots@),
{
    let count: usize = modules.module_count();
    let ghost imports = modules.imports();
    let mut pairs: Vec<(usize, usize)> = Vec::new();
    let mut root: usize = 0;
    proof {
        roots.lemma_roots_below_capacity();
    }
    while root < count
        invariant
            root <= count,
            count == modules.modules().len(),
            imports == modules.imports(),
            forall|m: usize| roots@.dom().contains(m) ==> m < count,
            forall|k: int|
                0 <= k < pairs.len() ==> (#[trigger] pairs[k]).0 < root && pairs[k].1 < count
                    && pairs[k].1 != pairs[k].0 && claimed_pairs(imports, roots@).contains(pairs[k]),
            forall|p: (usize, usize)| #[trigger]
                claimed_pairs(imports, roots@).contains(p) && p.0 < root ==> pairs@.contains(p),
            forall|r: usize| #[trigger]
                roots@.dom().contains(r) && r < root ==> claims_closed(
                    imports,
                    r,
                    roots@.dom(),
                    dfs_claimed(imports, r, roots@.dom()),
                ),
        decreases count - root,
    {
        if roots.contains(root) {
            let found = claimed_modules(modules, root, roots);
            let ghost before = pairs@;
            let mut k: usize = 0;
            while k < found.len()
                invariant
                    k <= found.len(),
                    root < count,
                    roots@.dom().contains(root),
                    found@ == dfs_claimed(imports, root, roots@.dom()),
                    forall|j: int| 0 <= j < found.len() ==> found[j] < count && found[j] != root,
                    pairs@ == before + Seq::new(k as nat, |j: int| (root, found[j])),
                decreases found.len() - k,
            {
                pairs.push((root, found[k]));
                assert(pairs@ =~= before + Seq::new((k + 1) as nat, |j: int| (root, found[j])));
                k = k + 1;
            }
            proof {
                let added = Seq::new(found.len() as nat, |j: int| (root, found[j]));
                assert forall|i: int| 0 <= i < pairs.len() implies (#[trigger] pairs[i]).0 < root
                    + 1 && pairs[i].1 < count && pairs[i].1 != pairs[i].0 && claimed_pairs(
                    imports,
                    roots@,
                ).contains(pairs[i]) by {
                    if i < before.len() {
                        assert(pairs[i] == before[i]);
                    } else {
                        assert(pairs[i] == added[i - before.len()]);
                        assert(found@.contains(found[i - before.len()]));
                    }
                }
                assert forall|p: (usize, usize)|
                    claimed_pairs(imports, roots@).contains(p) && p.0 < root
                        + 1 implies pairs@.contains(p) by {
                    if p.0 < root {
                        assert(before.contains(p));
                        let i = choose|i: int| 0 <= i < before.len() && before[i] == p;
                        assert(pairs[i] == p);
                    } else {
                        let j = choose|j: int| 0 <= j < found.len() && found[j] == p.1;
                        assert(pairs[before.len() + j] == added[j]);
                    }
                }
            }
        }
        root = root + 1;
    }
    let reachable = ReachableModules { graph: graph_from_edges(&pairs) };
    proof {
        assert forall|p: (usize, usize)| reachable@.contains(p) == claimed_pairs(
            imports,
            roots@,
        ).contains(p) by {
            if pairs@.contains(p) {
                let i = choose|i: int| 0 <= i < pairs.len() && pairs[i] == p;
                assert(claimed_pairs(imports, roots@).contains(pairs[i]));
            }
        }
        assert(reachable@ =~= claimed_pairs(imports, roots@));
        assert forall|p: (usize, usize)| #[trigger] reachable@.contains(p) implies roots@.dom().contains(
            p.0,
        ) && p.1 < count && p.1 != p.0 by {
            let i = choose|i: int| 0 <= i < pairs.len() && pairs[i] == p;
            assert(pairs[i].1 < count);
        }
    }
    reachable
}

} // verus!
